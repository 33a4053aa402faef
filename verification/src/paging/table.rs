//! Translation tables: a tree of fixed-size tables whose entries map blocks
//! and pages or lead to the table of the next level.

use vstd::prelude::*;
use vstd::arithmetic::div_mod::{lemma_mod_bound, lemma_mod_multiples_vanish};
use crate::align::{
    align_down, lemma_align_down, lemma_aligned_pages, lemma_block_of, lemma_same_block,
};
use crate::paging::geometry::{
    block_no, index_of, lemma_block_entry, lemma_block_fits, lemma_blocks_apart,
    lemma_congruent_shift, lemma_finer_congruence, lemma_first_piece, lemma_granule, lemma_in_span,
    lemma_index_bound, lemma_leaf_flags, lemma_level_after_above, lemma_level_after_piece,
    lemma_level_beside_above, lemma_level_beside_apart, lemma_level_beside_other_block,
    lemma_level_beside_own_block, lemma_nested, lemma_next_block, lemma_piece_covers,
    lemma_piece_index, lemma_previous_block, lemma_small_span, lemma_touches_grows,
    lemma_written_marks, level_after, level_beside, span_no,
};
use crate::paging::{
    Attributes, Chunk, Descriptor, granularity, granule, lemma_address, lemma_page_address,
    lemma_word_parts, written_marks, TABLE_OR_PAGE,
};

verus! {

/// Whether two tables at `level` translate every address alike, and end the
/// walk for it at one level and at the same entry.
pub open spec fn same_below(a: PageTable, b: PageTable, level: int) -> bool {
    &&& forall|va: int| 0 <= va ==> (#[trigger] a.walk(va, level)) == b.walk(va, level)
    &&& forall|va: int| 0 <= va ==> (#[trigger] a.leaf_level(va, level)) == b.leaf_level(va, level)
    &&& forall|va: int| 0 <= va ==> (#[trigger] a.leaf(va, level)) == b.leaf(va, level)
}

/// The words of the tables of an image.
pub open spec fn words_of(tables: Seq<Vec<u64>>) -> Seq<Seq<u64>> {
    Seq::new(tables.len(), |i: int| tables[i]@)
}

/// What the tables of an image make of address `va`, from table `t` at
/// `level` on. Table `k` of the image lies at address `base + k * 4096`, and
/// an entry that leads to a table holds the address of that table: this is
/// the walk of the hardware.
pub open spec fn image_walk(
    img: Seq<Seq<u64>>,
    base: int,
    t: int,
    va: int,
    level: int,
) -> Option<(int, u64)>
    decreases 3 - level,
{
    let e = Descriptor(img[t][index_of(va, level)]);
    if level < 3 && e.table() {
        image_walk(img, base, (e.address() - base) / 4096, va, level + 1)
    } else if e.valid() {
        Some((e.address() + va % granule(level), e.protection()))
    } else {
        None
    }
}

/// The word of the image at which the walk for `va` ends, from table `t` at
/// `level` on: the entry that maps `va`, or the one that says that nothing
/// does.
pub open spec fn image_leaf(img: Seq<Seq<u64>>, base: int, t: int, va: int, level: int) -> u64
    decreases 3 - level,
{
    let e = Descriptor(img[t][index_of(va, level)]);
    if level < 3 && e.table() {
        image_leaf(img, base, (e.address() - base) / 4096, va, level + 1)
    } else {
        e.0
    }
}

/// Whether table `t` of an image, a table at `level`, and the tables below
/// it are in order: each has 512 words, and each entry that leads to a table
/// holds the address of a later table of the image.
pub open spec fn image_wf(img: Seq<Seq<u64>>, base: int, t: int, level: int) -> bool
    decreases 3 - level,
{
    &&& 0 <= level <= 3
    &&& 0 <= t < img.len()
    &&& img[t].len() == 512
    &&& level < 3 ==> forall|i: int|
        0 <= i < 512 && Descriptor(#[trigger] img[t][i]).table() ==> {
            let c = (Descriptor(img[t][i]).address() - base) / 4096;
            &&& Descriptor(img[t][i]).address() == base + c * 4096
            &&& t < c < img.len()
            &&& image_wf(img, base, c, level + 1)
        }
}

/// An image that agrees with another from table `t` on is in order from `t`
/// on where the other is, and walks the same way from there.
pub proof fn lemma_image_agree(
    a: Seq<Seq<u64>>,
    b: Seq<Seq<u64>>,
    base: int,
    t: int,
    level: int,
)
    requires
        image_wf(a, base, t, level),
        a.len() <= b.len(),
        forall|j: int| t <= j < a.len() ==> #[trigger] b[j] == a[j],
    ensures
        image_wf(b, base, t, level),
        forall|va: int|
            0 <= va ==> (#[trigger] image_walk(b, base, t, va, level)) == image_walk(
                a,
                base,
                t,
                va,
                level,
            ),
        forall|va: int|
            0 <= va ==> (#[trigger] image_leaf(b, base, t, va, level)) == image_leaf(
                a,
                base,
                t,
                va,
                level,
            ),
    decreases 3 - level,
{
    assert(b[t] == a[t]);
    if level < 3 {
        assert forall|i: int| 0 <= i < 512 && Descriptor(#[trigger] b[t][i]).table() implies {
            let c = (Descriptor(b[t][i]).address() - base) / 4096;
            &&& Descriptor(b[t][i]).address() == base + c * 4096
            &&& t < c < b.len()
            &&& image_wf(b, base, c, level + 1)
        } by {
            let c = (Descriptor(a[t][i]).address() - base) / 4096;
            assert(Descriptor(a[t][i]).table());
            lemma_image_agree(a, b, base, c, level + 1);
        }
    }
    assert forall|va: int| 0 <= va implies (#[trigger] image_walk(b, base, t, va, level))
        == image_walk(a, base, t, va, level) by {
        let i = index_of(va, level);
        lemma_index_bound(va, level);
        let e = Descriptor(a[t][i]);
        if level < 3 && e.table() {
            let c = (e.address() - base) / 4096;
            lemma_image_agree(a, b, base, c, level + 1);
            assert(image_walk(b, base, t, va, level) == image_walk(b, base, c, va, level + 1));
            assert(image_walk(a, base, t, va, level) == image_walk(a, base, c, va, level + 1));
        }
    }
    assert forall|va: int| 0 <= va implies (#[trigger] image_leaf(b, base, t, va, level))
        == image_leaf(a, base, t, va, level) by {
        let i = index_of(va, level);
        lemma_index_bound(va, level);
        let e = Descriptor(a[t][i]);
        if level < 3 && e.table() {
            let c = (e.address() - base) / 4096;
            lemma_image_agree(a, b, base, c, level + 1);
            assert(image_leaf(b, base, t, va, level) == image_leaf(b, base, c, va, level + 1));
            assert(image_leaf(a, base, t, va, level) == image_leaf(a, base, c, va, level + 1));
        }
    }
}

/// Whether the image translates every address from table `t` on as the table
/// `table`, at `level`, does, and ends the walk for it at the same word.
pub open spec fn same_image(
    img: Seq<Seq<u64>>,
    base: int,
    t: int,
    table: PageTable,
    level: int,
) -> bool {
    &&& forall|va: int|
        0 <= va ==> (#[trigger] image_walk(img, base, t, va, level)) == table.walk(va, level)
    &&& forall|va: int|
        0 <= va ==> (#[trigger] image_leaf(img, base, t, va, level)) == table.leaf(va, level).0
}

/// The greatest number of tables that a tree with its root at `level` can
/// have.
pub open spec fn most_tables(level: int) -> int {
    if level >= 3 {
        1
    } else if level == 2 {
        513
    } else if level == 1 {
        262657
    } else {
        134480385
    }
}

/// Whether the entry at which the walk of `t` for `va` ends bears the marks
/// of an entry that maps memory at its level.
pub open spec fn written(t: PageTable, va: int, level: int) -> bool {
    t.leaf(va, level).marks() == written_marks(t.leaf_level(va, level))
}

/// Whether the walk for `va` ends in `after` where a change that was not
/// meant for `va` may leave it: at the same entry as in `before`, or, where
/// the block that held `va` was divided, further down, at an entry that is
/// empty if the old one was not valid and bears the marks of its level if
/// it was.
pub open spec fn kept(before: PageTable, after: PageTable, va: int, level: int) -> bool {
    &&& after.leaf_level(va, level) >= before.leaf_level(va, level)
    &&& after.leaf_level(va, level) == before.leaf_level(va, level) ==> after.leaf(va, level)
        == before.leaf(va, level)
    &&& after.leaf_level(va, level) != before.leaf_level(va, level) ==> (if before.leaf(
        va,
        level,
    ).valid() {
        written(after, va, level)
    } else {
        after.leaf(va, level).0 == 0
    })
}

/// Whether the walk for every address of `range` ends at the same level in
/// both trees.
pub open spec fn same_levels(before: PageTable, after: PageTable, range: Chunk, level: int) -> bool {
    forall|va: int|
        range.holds(va) ==> (#[trigger] after.leaf_level(va, level)) == before.leaf_level(va, level)
}

/// What was kept over one change and then over another was kept over both.
pub proof fn lemma_kept_twice(a: PageTable, b: PageTable, c: PageTable, va: int, level: int)
    requires
        kept(a, b, va, level),
        kept(b, c, va, level),
    ensures
        kept(a, c, va, level),
{
    lemma_word_parts(b.leaf(va, level));
}

/// A table of the tree.
pub struct PageTable {
    entries: Vec<Descriptor>,
    tables: Vec<Option<Box<PageTable>>>,
}

impl PageTable {
    /// The invariant of a table at `level`: it has 512 entries; above the
    /// leaf level the entries with the table bit, and only they, lead to a
    /// valid table of the next level; and a block starts at a multiple of its
    /// size.
    pub closed spec fn wf(&self, level: int) -> bool
        decreases 3 - level,
    {
        &&& 0 <= level <= 3
        &&& self.entries@.len() == 512
        &&& self.tables@.len() == 512
        &&& forall|i: int|
            0 <= i < 512 ==> ((#[trigger] self.tables@[i]) is Some <==> level < 3
                && self.entries@[i].table())
        &&& forall|i: int|
            0 <= i < 512 && (#[trigger] self.tables@[i]) is Some ==> level < 3
                && self.tables@[i]->0.wf(level + 1)
        &&& forall|i: int|
            0 <= i < 512 && level < 3 && (#[trigger] self.entries@[i]).valid()
                && !self.entries@[i].table() ==> self.entries@[i].address() as int % granule(level)
                == 0
    }

    /// What the table, at `level`, makes of address `va`: the physical
    /// address and the protection bits, or nothing where the walk ends at an
    /// invalid entry.
    pub closed spec fn walk(&self, va: int, level: int) -> Option<(int, u64)>
        decreases 3 - level,
    {
        let i = index_of(va, level);
        if level < 3 && self.tables@[i] is Some {
            self.tables@[i]->0.walk(va, level + 1)
        } else if self.entries@[i].valid() {
            Some((self.entries@[i].address() + va % granule(level), self.entries@[i].protection()))
        } else {
            None
        }
    }

    /// The level of the table in which the walk for `va` ends.
    pub closed spec fn leaf_level(&self, va: int, level: int) -> int
        decreases 3 - level,
    {
        let i = index_of(va, level);
        if level < 3 && self.tables@[i] is Some {
            self.tables@[i]->0.leaf_level(va, level + 1)
        } else {
            level
        }
    }

    /// The entry at which the walk for `va` ends.
    pub closed spec fn leaf(&self, va: int, level: int) -> Descriptor
        decreases 3 - level,
    {
        let i = index_of(va, level);
        if level < 3 && self.tables@[i] is Some {
            self.tables@[i]->0.leaf(va, level + 1)
        } else {
            self.entries@[i]
        }
    }

    /// The walk gives what the entry at which it ends says: nothing where
    /// the entry is invalid, and else the address of the entry with the
    /// offset of `va` in what the entry spans, and the protection of the
    /// entry.
    pub proof fn lemma_walk_by_leaf(&self, va: int, level: int)
        requires
            self.wf(level),
            0 <= va,
        ensures
            self.walk(va, level) == (if self.leaf(va, level).valid() {
                Some(
                    (
                        self.leaf(va, level).address() + va % granule(self.leaf_level(va, level)),
                        self.leaf(va, level).protection(),
                    ),
                )
            } else {
                None
            }),
        decreases 3 - level,
    {
        let i = index_of(va, level);
        lemma_index_bound(va, level);
        if level < 3 && self.tables@[i] is Some {
            self.tables@[i]->0.lemma_walk_by_leaf(va, level + 1);
        }
    }

    /// A table of invalid entries: every word is zero.
    pub fn new() -> (t: PageTable)
        ensures
            forall|level: int| 0 <= level <= 3 ==> #[trigger] t.wf(level),
            forall|va: int, level: int| (#[trigger] t.walk(va, level)) is None,
            forall|va: int, level: int| (#[trigger] t.leaf_level(va, level)) == level,
            forall|va: int, level: int| (#[trigger] t.leaf(va, level)).0 == 0,
            forall|level: int| 0 <= level <= 3 ==> #[trigger] t.count(level) == 1,
    {
        let mut entries: Vec<Descriptor> = Vec::new();
        let mut tables: Vec<Option<Box<PageTable>>> = Vec::new();
        let mut i: usize = 0;
        while i < 512
            invariant
                i <= 512,
                entries@.len() == i,
                tables@.len() == i,
                forall|j: int| 0 <= j < i ==> !(#[trigger] entries@[j]).valid(),
                forall|j: int| 0 <= j < i ==> (#[trigger] entries@[j]).0 == 0,
                forall|j: int| 0 <= j < i ==> (#[trigger] tables@[j]) is None,
            decreases 512 - i,
        {
            entries.push(Descriptor::invalid());
            tables.push(None);
            i += 1;
        }
        let t = PageTable { entries, tables };
        proof {
            assert forall|level: int| 0 <= level <= 3 implies #[trigger] t.wf(level) by {}
            assert forall|va: int, level: int| (#[trigger] t.walk(va, level)) is None by {
                t.lemma_walk_leaf(va, level);
            }
            assert forall|va: int, level: int| (#[trigger] t.leaf_level(va, level)) == level by {
                t.lemma_walk_leaf(va, level);
            }
            assert forall|va: int, level: int| (#[trigger] t.leaf(va, level)).0 == 0 by {
                t.lemma_walk_leaf(va, level);
            }
            assert forall|level: int| 0 <= level <= 3 implies #[trigger] t.count(level) == 1 by {
                t.lemma_count_leaf(level, 512);
            }
        }
        t
    }

    /// Maps `range` to the physical addresses from `pa` on with the given
    /// flags, in this table at `level` and the tables below it.
    ///
    /// A piece of the range that is exactly what one entry spans is mapped by
    /// that entry as a block, unless the entry leads to a table already; at
    /// the leaf level every piece is a page. Any other piece goes to the
    /// table of the next level, which is made where there is none; a block
    /// that was mapped there before is mapped again in the new table, whole.
    ///
    /// The walk for an address of the range ends at the first level at which
    /// the range holds all that the entry for it spans and the entry led to
    /// no table; the walk for another address ends where it ended, or, where
    /// the range holds a part of what its entry spanned, at the first level
    /// below at which the range holds nothing of it. Each entry that is
    /// written bears the valid bit and the accessed bit, and at the last
    /// level the bit that makes it a page. No table is added where the walks
    /// for the range end where they ended. An empty range changes nothing.
    pub fn map_range(&mut self, range: &Chunk, pa: u64, flags: Attributes, level: usize)
        requires
            old(self).wf(level as int),
            range.pages(),
            range.0.start < range.0.end ==> span_no(range.0.start as int, level as int) == span_no(
                range.0.end - 1,
                level as int,
            ),
            flags.for_mapping(),
            pa as int % 4096 == 0,
            pa + (range.0.end - range.0.start) <= 0x1_0000_0000_0000,
            pa as int % granule(level as int) == range.0.start as int % granule(level as int),
        ensures
            final(self).wf(level as int),
            forall|va: int|
                0 <= va && span_no(va, level as int) == span_no(range.0.start as int, level as int)
                    ==> (#[trigger] final(self).walk(va, level as int)) == (if range.holds(va) {
                    Some((pa + (va - range.0.start), flags.bits & 0xffff_0000_0000_0bfc))
                } else {
                    old(self).walk(va, level as int)
                }),
            forall|va: int|
                range.holds(va) ==> ((#[trigger] final(self).leaf_level(va, level as int)) == level
                    <==> level == 3 || (range.covers_block(va, level as int) && old(self).leaf_level(va, level as int) == level)),
            forall|va: int|
                range.holds(va) ==> (#[trigger] final(self).leaf_level(va, level as int))
                    == level_after(*range, va, old(self).leaf_level(va, level as int), level as int),
            forall|va: int|
                0 <= va && span_no(va, level as int) == span_no(range.0.start as int, level as int)
                    && !range.holds(va) ==> (#[trigger] final(self).leaf_level(va, level as int))
                    == level_beside(*range, va, old(self).leaf_level(va, level as int), level as int),
            forall|va: int| range.holds(va) ==> #[trigger] written(*final(self), va, level as int),
            forall|va: int|
                0 <= va && span_no(va, level as int) == span_no(range.0.start as int, level as int)
                    && !range.holds(va) ==> #[trigger] kept(
                    *old(self),
                    *final(self),
                    va,
                    level as int,
                ),
            forall|va: int|
                0 <= va && span_no(va, level as int) == span_no(range.0.start as int, level as int)
                    && !range.touches_block(va, level as int) ==> (#[trigger] final(self).leaf_level(va, level as int)) == old(self).leaf_level(va, level as int),
            forall|va: int|
                0 <= va && span_no(va, level as int) == span_no(range.0.start as int, level as int)
                    && !range.touches_block(va, level as int) ==> (#[trigger] final(self).leaf(va, level as int)) == old(self).leaf(va, level as int),
            forall|va: int|
                0 <= va && level < 3 && range.touches_block(va, level as int)
                    && !range.covers_block(va, level as int) ==> (#[trigger] final(self).leaf_level(va, level as int)) > level,
            final(self).count(level as int) >= old(self).count(level as int),
            same_levels(*old(self), *final(self), *range, level as int) ==> final(self).count(
                level as int,
            ) == old(self).count(level as int),
        decreases 3 - level, 2int,
    {
        let s0 = range.0.start;
        let end = range.0.end;
        let mut start = s0;
        let mut pa_now = pa;
        let ghost t0 = *self;
        let ghost lv = level as int;
        let ghost g = granule(lv);
        proof {
            lemma_granule(lv);
            assert forall|va: int|
                0 <= va && span_no(va, lv) == span_no(s0 as int, lv) && !range.holds(
                    va,
                ) implies (#[trigger] self.leaf_level(va, lv)) == level_beside(
                Chunk(s0..start),
                va,
                t0.leaf_level(va, lv),
                lv,
            ) by {
                t0.lemma_leaf_level_bound(va, lv);
                lemma_level_beside_apart(Chunk(s0..start), va, t0.leaf_level(va, lv), lv);
            }
        }
        while start < end
            invariant
                self.wf(lv),
                lv == level,
                0 <= lv <= 3,
                g == granule(lv),
                range.pages(),
                s0 == range.0.start,
                end == range.0.end,
                s0 <= start <= end,
                start as int % 4096 == 0,
                start == s0 || start == end || start as int % g == 0,
                s0 < end ==> span_no(s0 as int, lv) == span_no(end - 1, lv),
                pa_now == pa + (start - s0),
                flags.for_mapping(),
                pa as int % 4096 == 0,
                pa + (end - s0) <= 0x1_0000_0000_0000,
                pa as int % g == s0 as int % g,
                forall|va: int|
                    0 <= va && span_no(va, lv) == span_no(s0 as int, lv) ==> (#[trigger] self.walk(
                        va,
                        lv,
                    )) == (if s0 <= va < start {
                        Some((pa + (va - s0), flags.bits & 0xffff_0000_0000_0bfc))
                    } else {
                        t0.walk(va, lv)
                    }),
                forall|va: int|
                    start <= va < end ==> (#[trigger] self.leaf_level(va, lv)) == t0.leaf_level(
                        va,
                        lv,
                    ),
                forall|va: int|
                    s0 <= va < start ==> ((#[trigger] self.leaf_level(va, lv)) == lv <==> lv == 3
                        || (range.covers_block(va, lv) && t0.leaf_level(va, lv) == lv)),
                forall|va: int|
                    s0 <= va < start ==> (#[trigger] self.leaf_level(va, lv)) == level_after(
                        *range,
                        va,
                        t0.leaf_level(va, lv),
                        lv,
                    ),
                forall|va: int|
                    0 <= va && span_no(va, lv) == span_no(s0 as int, lv) && !range.holds(va) ==> (
                    #[trigger] self.leaf_level(va, lv)) == level_beside(
                        Chunk(s0..start),
                        va,
                        t0.leaf_level(va, lv),
                        lv,
                    ),
                forall|va: int| s0 <= va < start ==> #[trigger] written(*self, va, lv),
                forall|va: int|
                    0 <= va && span_no(va, lv) == span_no(s0 as int, lv) && !(s0 <= va < start)
                        ==> #[trigger] kept(t0, *self, va, lv),
                forall|va: int|
                    0 <= va && span_no(va, lv) == span_no(s0 as int, lv) && !Chunk(
                        s0..start,
                    ).touches_block(va, lv) ==> (#[trigger] self.leaf_level(va, lv))
                        == t0.leaf_level(va, lv) && self.leaf(va, lv) == t0.leaf(va, lv),
                self.count(lv) >= t0.count(lv),
                same_levels(t0, *self, Chunk(s0..start), lv) ==> self.count(lv) == t0.count(lv),
            decreases end - start,
        {
            let whole = Chunk(start..end);
            let (piece, _rest) = whole.split(level);
            let stop = piece.0.end;
            let ghost before = *self;
            proof {
                lemma_first_piece(whole, lv);
                lemma_congruent_shift(pa as int, s0 as int, start - s0, g);
                lemma_in_span(s0 as int, start as int, end as int, lv);
            }
            self.map_piece(&piece, pa_now, flags, level);
            proof {
                assert forall|va: int| stop <= va < end implies (#[trigger] self.leaf_level(
                    va,
                    lv,
                )) == t0.leaf_level(va, lv) by {
                    lemma_in_span(s0 as int, va, end as int, lv);
                    lemma_next_block(start as int, stop as int, va, lv);
                }
                assert forall|va: int| s0 <= va < stop implies ((#[trigger] self.leaf_level(
                    va,
                    lv,
                )) == lv <==> lv == 3 || (range.covers_block(va, lv) && t0.leaf_level(va, lv)
                    == lv)) by {
                    lemma_in_span(s0 as int, va, end as int, lv);
                    if va >= start {
                        lemma_piece_covers(*range, start as int, stop as int, va, lv);
                    } else {
                        lemma_previous_block(start as int, va, lv);
                    }
                }
                assert forall|va: int| s0 <= va < stop implies (#[trigger] self.leaf_level(
                    va,
                    lv,
                )) == level_after(*range, va, t0.leaf_level(va, lv), lv) by {
                    lemma_in_span(s0 as int, va, end as int, lv);
                    if va < start {
                        lemma_previous_block(start as int, va, lv);
                        assert(self.leaf_level(va, lv) == before.leaf_level(va, lv));
                    } else {
                        assert(piece.holds(va));
                        assert(before.leaf_level(va, lv) == t0.leaf_level(va, lv));
                        lemma_level_after_piece(*range, piece, va, t0.leaf_level(va, lv), lv, lv);
                    }
                }
                assert forall|va: int|
                    0 <= va && span_no(va, lv) == span_no(s0 as int, lv) && !range.holds(
                        va,
                    ) implies (#[trigger] self.leaf_level(va, lv)) == level_beside(
                    Chunk(s0..stop),
                    va,
                    t0.leaf_level(va, lv),
                    lv,
                ) by {
                    let old_level = t0.leaf_level(va, lv);
                    lemma_align_down(start as int, g);
                    if block_no(va, lv) != block_no(start as int, lv) {
                        assert(self.leaf_level(va, lv) == before.leaf_level(va, lv));
                        lemma_level_beside_other_block(s0, start, stop, va, old_level, lv, lv);
                    } else {
                        lemma_block_of(start as int, va, g);
                        lemma_same_block(start as int, va, g);
                        assert(!Chunk(s0..start).touches_block(va, lv));
                        assert(before.leaf_level(va, lv) == old_level);
                        assert(!piece.holds(va));
                        lemma_level_beside_own_block(s0, start, stop, va, old_level, lv, lv);
                    }
                }
                assert forall|va: int| s0 <= va < stop implies #[trigger] written(*self, va, lv) by {
                    lemma_in_span(s0 as int, va, end as int, lv);
                    if va < start {
                        lemma_previous_block(start as int, va, lv);
                        assert(written(before, va, lv));
                        assert(self.leaf_level(va, lv) == before.leaf_level(va, lv));
                    } else {
                        assert(piece.holds(va));
                    }
                }
                assert forall|va: int|
                    0 <= va && span_no(va, lv) == span_no(s0 as int, lv) && !(s0 <= va
                        < stop) implies #[trigger] kept(t0, *self, va, lv) by {
                    assert(kept(t0, before, va, lv));
                    assert(kept(before, *self, va, lv));
                    lemma_kept_twice(t0, before, *self, va, lv);
                }
                assert forall|va: int|
                    0 <= va && span_no(va, lv) == span_no(s0 as int, lv) && !Chunk(
                        s0..stop,
                    ).touches_block(va, lv) implies (#[trigger] self.leaf_level(va, lv))
                    == t0.leaf_level(va, lv) && self.leaf(va, lv) == t0.leaf(va, lv) by {
                    lemma_touches_grows(s0, start, stop, va, lv);
                    assert(before.leaf_level(va, lv) == t0.leaf_level(va, lv));
                }
                if same_levels(t0, *self, Chunk(s0..stop), lv) {
                    assert forall|va: int| Chunk(s0..start).holds(va) implies (
                    #[trigger] before.leaf_level(va, lv)) == t0.leaf_level(va, lv) by {
                        lemma_in_span(s0 as int, va, end as int, lv);
                        lemma_previous_block(start as int, va, lv);
                        assert(Chunk(s0..stop).holds(va));
                        assert(self.leaf_level(va, lv) == before.leaf_level(va, lv));
                    }
                    assert forall|va: int| piece.holds(va) implies (#[trigger] self.leaf_level(
                        va,
                        lv,
                    )) == before.leaf_level(va, lv) by {
                        assert(Chunk(s0..stop).holds(va));
                    }
                    assert(same_levels(t0, before, Chunk(s0..start), lv));
                    assert(same_levels(before, *self, piece, lv));
                }
            }
            pa_now = pa_now + (stop - start);
            start = stop;
        }
        proof {
            assert(Chunk(s0..start) == *range);
            assert forall|va: int|
                0 <= va && span_no(va, lv) == span_no(s0 as int, lv) && !range.touches_block(
                    va,
                    lv,
                ) implies (#[trigger] self.leaf(va, lv)) == t0.leaf(va, lv) by {
                assert(!Chunk(s0..start).touches_block(va, lv));
                assert(self.leaf_level(va, lv) == t0.leaf_level(va, lv));
            }
            assert forall|va: int|
                0 <= va && lv < 3 && range.touches_block(va, lv) && !range.covers_block(
                    va,
                    lv,
                ) implies (#[trigger] self.leaf_level(va, lv)) > lv by {
                let low = align_down(va, g);
                let v = if s0 > low {
                    s0 as int
                } else {
                    low
                };
                lemma_align_down(va, g);
                lemma_same_block(va, v, g);
                assert(range.holds(v));
                assert(!range.covers_block(v, lv));
                assert(self.leaf_level(v, lv) != lv);
                self.lemma_one_entry(v, va, lv);
                self.lemma_leaf_level_bound(va, lv);
            }
        }
    }

    /// Maps one piece of a range: a chunk that lies under one entry of this
    /// table.
    fn map_piece(&mut self, piece: &Chunk, pa: u64, flags: Attributes, level: usize)
        requires
            old(self).wf(level as int),
            piece.wf(),
            piece.0.end <= align_down(piece.0.start as int, granule(level as int)) + granule(
                level as int,
            ),
            level == 3 ==> piece.0.end == piece.0.start + 4096,
            flags.for_mapping(),
            pa as int % 4096 == 0,
            pa + (piece.0.end - piece.0.start) <= 0x1_0000_0000_0000,
            pa as int % granule(level as int) == piece.0.start as int % granule(level as int),
        ensures
            final(self).wf(level as int),
            forall|va: int|
                0 <= va && span_no(va, level as int) == span_no(piece.0.start as int, level as int)
                    ==> (#[trigger] final(self).walk(va, level as int)) == (if piece.holds(va) {
                    Some((pa + (va - piece.0.start), flags.bits & 0xffff_0000_0000_0bfc))
                } else {
                    old(self).walk(va, level as int)
                }),
            forall|va: int|
                0 <= va && span_no(va, level as int) == span_no(piece.0.start as int, level as int)
                    && block_no(va, level as int) != block_no(piece.0.start as int, level as int)
                    ==> (#[trigger] final(self).leaf_level(va, level as int)) == old(self).leaf_level(va, level as int),
            forall|va: int|
                0 <= va && block_no(va, level as int) == block_no(piece.0.start as int, level as int)
                    ==> ((#[trigger] final(self).leaf_level(va, level as int)) == level <==> level
                    == 3 || (piece.block(level as int) && old(self).leaf_level(va, level as int)
                    == level)),
            forall|va: int|
                piece.holds(va) ==> (#[trigger] final(self).leaf_level(va, level as int))
                    == level_after(*piece, va, old(self).leaf_level(va, level as int), level as int),
            forall|va: int|
                0 <= va && span_no(va, level as int) == span_no(piece.0.start as int, level as int)
                    && !piece.holds(va) ==> (#[trigger] final(self).leaf_level(va, level as int))
                    == level_beside(*piece, va, old(self).leaf_level(va, level as int), level as int),
            forall|va: int| piece.holds(va) ==> #[trigger] written(*final(self), va, level as int),
            forall|va: int|
                0 <= va && span_no(va, level as int) == span_no(piece.0.start as int, level as int)
                    && !piece.holds(va) ==> #[trigger] kept(
                    *old(self),
                    *final(self),
                    va,
                    level as int,
                ),
            forall|va: int|
                0 <= va && span_no(va, level as int) == span_no(piece.0.start as int, level as int)
                    && block_no(va, level as int) != block_no(piece.0.start as int, level as int)
                    ==> (#[trigger] final(self).leaf(va, level as int)) == old(self).leaf(va, level as int),
            final(self).count(level as int) >= old(self).count(level as int),
            same_levels(*old(self), *final(self), *piece, level as int) ==> final(self).count(
                level as int,
            ) == old(self).count(level as int),
        decreases 3 - level, 1int,
    {
        let gran = granularity(level);
        let start = piece.0.start;
        let stop = piece.0.end;
        let index = ((start / gran) % 512) as usize;
        let ghost before = *self;
        let ghost lv = level as int;
        let ghost g = gran as int;
        proof {
            lemma_granule(lv);
            lemma_index_bound(start as int, lv);
            lemma_align_down(start as int, g);
            if piece.block(lv) {
                if stop < start + g {
                    lemma_same_block(start as int, stop as int, g);
                }
            }
        }
        let entry = self.entries[index];
        if level == 3 || (piece.is_block(level) && !entry.is_table()) {
            self.map_entry(index, pa, flags, level);
        } else {
            self.map_below(index, piece, pa, flags, level);
        }
        proof {
            assert forall|va: int|
                0 <= va && span_no(va, lv) == span_no(start as int, lv) implies (#[trigger] self.walk(
                va,
                lv,
            )) == (if piece.holds(va) {
                Some((pa + (va - start), flags.bits & 0xffff_0000_0000_0bfc))
            } else {
                before.walk(va, lv)
            }) by {
                lemma_piece_index(va, start as int, stop as int, lv);
                if index_of(va, lv) == index {
                    lemma_same_block(start as int, va, g);
                }
            }
            assert forall|va: int|
                0 <= va && span_no(va, lv) == span_no(start as int, lv) && block_no(va, lv)
                    != block_no(start as int, lv) implies (#[trigger] self.leaf_level(va, lv))
                == before.leaf_level(va, lv) by {
                lemma_piece_index(va, start as int, stop as int, lv);
            }
            assert forall|va: int|
                0 <= va && block_no(va, lv) == block_no(start as int, lv) implies ((
            #[trigger] self.leaf_level(va, lv)) == lv <==> lv == 3 || (piece.block(lv)
                && before.leaf_level(va, lv) == lv)) by {
                lemma_block_entry(va, start as int, lv);
                before.lemma_leaf_level_entry(va, lv);
            }
            assert forall|va: int| piece.holds(va) implies #[trigger] written(*self, va, lv) by {
                lemma_piece_index(va, start as int, stop as int, lv);
            }
            assert forall|va: int|
                0 <= va && span_no(va, lv) == span_no(start as int, lv) && !piece.holds(
                    va,
                ) implies (#[trigger] self.leaf_level(va, lv)) == level_beside(
                *piece,
                va,
                before.leaf_level(va, lv),
                lv,
            ) by {
                let old_level = before.leaf_level(va, lv);
                lemma_piece_index(va, start as int, stop as int, lv);
                before.lemma_leaf_level_bound(va, lv);
                if block_no(va, lv) != block_no(start as int, lv) {
                    lemma_blocks_apart(va, start as int, lv);
                    assert(!piece.touches_block(va, lv));
                    lemma_level_beside_apart(*piece, va, old_level, lv);
                } else {
                    lemma_block_entry(va, start as int, lv);
                    lemma_block_of(start as int, va, g);
                    lemma_same_block(start as int, va, g);
                    lemma_mod_multiples_vanish(1, align_down(start as int, g), g);
                    assert(piece.touches_block(va, lv));
                    if old_level <= lv {
                        lemma_level_beside_above(*piece, va, old_level, lv + 1, lv + 1);
                    }
                }
            }
            assert forall|va: int| piece.holds(va) implies (#[trigger] self.leaf_level(va, lv))
                == level_after(*piece, va, before.leaf_level(va, lv), lv) by {
                let old_level = before.leaf_level(va, lv);
                lemma_piece_index(va, start as int, stop as int, lv);
                lemma_same_block(start as int, va, g);
                lemma_mod_multiples_vanish(1, align_down(start as int, g), g);
                before.lemma_leaf_level_entry(va, lv);
                before.lemma_leaf_level_bound(va, lv);
                if lv < 3 && !(piece.block(lv) && !entry.table()) {
                    assert(!(piece.covers_block(va, lv) && old_level <= lv));
                    if old_level <= lv {
                        lemma_level_after_above(*piece, va, old_level, lv + 1, lv + 1);
                    }
                }
            }
            assert forall|va: int|
                0 <= va && span_no(va, lv) == span_no(start as int, lv) && !piece.holds(
                    va,
                ) implies #[trigger] kept(before, *self, va, lv) by {
                lemma_piece_index(va, start as int, stop as int, lv);
            }
            assert forall|va: int|
                0 <= va && span_no(va, lv) == span_no(start as int, lv) && block_no(va, lv)
                    != block_no(start as int, lv) implies (#[trigger] self.leaf(va, lv))
                == before.leaf(va, lv) by {
                lemma_piece_index(va, start as int, stop as int, lv);
            }
        }
    }

    /// Makes the entry at `index` map the block or page that it spans to
    /// `pa`.
    fn map_entry(&mut self, index: usize, pa: u64, flags: Attributes, level: usize)
        requires
            old(self).wf(level as int),
            index < 512,
            flags.for_mapping(),
            pa as int % 4096 == 0,
            pa < 0x1_0000_0000_0000,
            level < 3 ==> !old(self).entries@[index as int].table() && pa as int % granule(
                level as int,
            ) == 0,
        ensures
            final(self).wf(level as int),
            forall|va: int|
                0 <= va && index_of(va, level as int) != index ==> (#[trigger] final(self).walk(
                    va,
                    level as int,
                )) == old(self).walk(va, level as int),
            forall|va: int|
                0 <= va && index_of(va, level as int) == index ==> (#[trigger] final(self).walk(
                    va,
                    level as int,
                )) == Some((pa + va % granule(level as int), flags.bits & 0xffff_0000_0000_0bfc)),
            forall|va: int|
                0 <= va ==> (#[trigger] final(self).leaf_level(va, level as int)) == (if index_of(
                    va,
                    level as int,
                ) == index {
                    level as int
                } else {
                    old(self).leaf_level(va, level as int)
                }),
            forall|va: int|
                0 <= va && index_of(va, level as int) != index ==> (#[trigger] final(self).leaf(va, level as int)) == old(self).leaf(va, level as int),
            forall|va: int|
                0 <= va && index_of(va, level as int) == index ==> (#[trigger] final(self).leaf(va, level as int)).marks() == written_marks(level as int),
            final(self).count(level as int) == old(self).count(level as int),
    {
        let ghost before = *self;
        let f = if level == 3 {
            flags.page()
        } else {
            flags
        };
        let mut e = self.entries[index];
        proof {
            lemma_leaf_flags(flags.bits);
            lemma_page_address(pa);
            lemma_written_marks(pa, flags.bits);
        }
        e.set(pa, f.accessed());
        self.entries[index] = e;
        proof {
            assert(self.entries@ =~= before.entries@.update(
                index as int,
                self.entries@[index as int],
            ));
            before.lemma_entry_written(*self, index as int, level as int);
        }
    }

    /// Maps `chunk`, which lies under the entry at `index`, in the table of
    /// the next level, which is made if the entry does not lead to one.
    fn map_below(&mut self, index: usize, chunk: &Chunk, pa: u64, flags: Attributes, level: usize)
        requires
            old(self).wf(level as int),
            level < 3,
            index == index_of(chunk.0.start as int, level as int),
            chunk.wf(),
            chunk.0.end <= align_down(chunk.0.start as int, granule(level as int)) + granule(
                level as int,
            ),
            flags.for_mapping(),
            pa as int % 4096 == 0,
            pa + (chunk.0.end - chunk.0.start) <= 0x1_0000_0000_0000,
            pa as int % granule(level as int) == chunk.0.start as int % granule(level as int),
        ensures
            final(self).wf(level as int),
            forall|va: int|
                0 <= va && index_of(va, level as int) != index ==> (#[trigger] final(self).walk(
                    va,
                    level as int,
                )) == old(self).walk(va, level as int),
            forall|va: int|
                0 <= va && block_no(va, level as int) == block_no(
                    chunk.0.start as int,
                    level as int,
                ) ==> (#[trigger] final(self).walk(va, level as int)) == (if chunk.holds(va) {
                    Some((pa + (va - chunk.0.start), flags.bits & 0xffff_0000_0000_0bfc))
                } else {
                    old(self).walk(va, level as int)
                }),
            forall|va: int|
                0 <= va && index_of(va, level as int) != index ==> (#[trigger] final(self).leaf_level(va, level as int)) == old(self).leaf_level(va, level as int),
            forall|va: int|
                0 <= va && index_of(va, level as int) == index ==> (#[trigger] final(self).leaf_level(va, level as int)) > level,
            forall|va: int|
                0 <= va && index_of(va, level as int) != index ==> (#[trigger] final(self).leaf(va, level as int)) == old(self).leaf(va, level as int),
            forall|va: int|
                chunk.holds(va) ==> (#[trigger] final(self).leaf_level(va, level as int))
                    == level_after(
                    *chunk,
                    va,
                    if old(self).leaf_level(va, level as int) > level {
                        old(self).leaf_level(va, level as int)
                    } else {
                        level + 1
                    },
                    level + 1,
                ),
            forall|va: int|
                0 <= va && block_no(va, level as int) == block_no(
                    chunk.0.start as int,
                    level as int,
                ) && !chunk.holds(va) ==> (#[trigger] final(self).leaf_level(va, level as int))
                    == level_beside(
                    *chunk,
                    va,
                    if old(self).leaf_level(va, level as int) > level {
                        old(self).leaf_level(va, level as int)
                    } else {
                        level + 1
                    },
                    level + 1,
                ),
            forall|va: int| chunk.holds(va) ==> #[trigger] written(*final(self), va, level as int),
            forall|va: int|
                0 <= va && block_no(va, level as int) == block_no(
                    chunk.0.start as int,
                    level as int,
                ) && !chunk.holds(va) ==> #[trigger] kept(
                    *old(self),
                    *final(self),
                    va,
                    level as int,
                ),
            final(self).count(level as int) >= old(self).count(level as int),
            same_levels(*old(self), *final(self), *chunk, level as int) ==> final(self).count(
                level as int,
            ) == old(self).count(level as int),
        decreases 3 - level, 0int,
    {
        let ghost before = *self;
        let ghost lv = level as int;
        let ghost g = granule(lv);
        let ghost start = chunk.0.start as int;
        let ghost a = align_down(start, g);
        let gran = granularity(level);
        proof {
            lemma_granule(lv);
            lemma_index_bound(start, lv);
            lemma_align_down(start, g);
            lemma_finer_congruence(pa as int, start, lv);
            lemma_same_block(start, chunk.0.end - 1, g);
        }
        let entry = self.entries[index];
        let mut slot: Option<Box<PageTable>> = None;
        core::mem::swap(&mut slot, &mut self.tables[index]);
        let mut sub: Box<PageTable> = match slot {
            Some(sub) => sub,
            None => {
                let mut fresh = PageTable::new();
                if entry.is_valid() {
                    let low = chunk.0.start - chunk.0.start % gran;
                    proof {
                        lemma_block_fits(start, g, 0x1_0000_0000_0000);
                        lemma_aligned_pages(a, g);
                        lemma_mod_multiples_vanish(1, a, g);
                        lemma_aligned_pages(a + g, g);
                        lemma_same_block(start, a + g - 1, g);
                        lemma_same_block(start, a, g);
                        lemma_address(entry);
                        lemma_block_fits(entry.address() as int, g, 0x1_0000_0000_0000);
                        lemma_finer_congruence(entry.address() as int, a, lv);
                    }
                    fresh.map_range(
                        &Chunk(low..low + gran),
                        entry.output_address(),
                        entry.flags(),
                        level + 1,
                    );
                }
                Box::new(fresh)
            },
        };
        let ghost sub0 = *sub;
        proof {
            assert forall|va: int| 0 <= va && block_no(va, lv) == block_no(start, lv) implies (
            #[trigger] sub0.walk(va, lv + 1)) == before.walk(va, lv) by {
                lemma_block_entry(va, start, lv);
                lemma_block_of(start, va, g);
                lemma_same_block(start, va, g);
                if before.tables@[index as int] is None {
                    before.lemma_walk_entry(va, lv);
                }
            }
            if before.tables@[index as int] is None {
                assert forall|va: int|
                    0 <= va && block_no(va, lv) == block_no(start, lv) implies (if entry.valid() {
                    (#[trigger] sub0.leaf(va, lv + 1)).marks() == written_marks(
                        sub0.leaf_level(va, lv + 1),
                    )
                } else {
                    sub0.leaf(va, lv + 1).0 == 0
                }) by {
                    lemma_block_of(start, va, g);
                    if entry.valid() {
                        assert(written(sub0, va, lv + 1));
                    }
                }
                assert forall|va: int|
                    0 <= va && block_no(va, lv) == block_no(start, lv) implies (
                #[trigger] sub0.leaf_level(va, lv + 1)) == lv + 1 by {
                    lemma_block_of(start, va, g);
                    lemma_same_block(start, va, g);
                    lemma_nested(va, lv, lv + 1);
                }
            }
        }
        sub.map_range(chunk, pa, flags, level + 1);
        let ghost sub1 = *sub;
        if !entry.is_table() {
            let mut e = entry;
            assert(0u64 & 0xffff_0000_0000_0fff == 0 && 0x2u64 & 0x0000_ffff_ffff_f000 == 0 && 0x2u64
                & 0x2 != 0) by (bit_vector);
            e.set(0, Attributes { bits: TABLE_OR_PAGE });
            self.entries[index] = e;
        }
        self.tables[index] = Some(sub);
        proof {
            assert(self.tables@ =~= before.tables@.update(index as int, self.tables@[index as int]));
            assert(self.entries@ =~= before.entries@.update(
                index as int,
                self.entries@[index as int],
            ));
            before.lemma_table_written(*self, index as int, lv);
            assert forall|va: int| 0 <= va && index_of(va, lv) == index implies (
            #[trigger] self.leaf_level(va, lv)) > lv by {
                sub1.lemma_leaf_level_bound(va, lv + 1);
            }
            assert forall|va: int| 0 <= va && block_no(va, lv) == block_no(start, lv) implies (
            #[trigger] self.walk(va, lv)) == (if chunk.holds(va) {
                Some((pa + (va - chunk.0.start), flags.bits & 0xffff_0000_0000_0bfc))
            } else {
                before.walk(va, lv)
            }) by {
                lemma_block_entry(va, start, lv);
                assert(self.walk(va, lv) == sub1.walk(va, lv + 1));
                assert(sub0.walk(va, lv + 1) == before.walk(va, lv));
            }
            assert forall|va: int| chunk.holds(va) implies (#[trigger] self.leaf_level(va, lv))
                == level_after(
                *chunk,
                va,
                if before.leaf_level(va, lv) > lv {
                    before.leaf_level(va, lv)
                } else {
                    lv + 1
                },
                lv + 1,
            ) by {
                lemma_piece_index(va, start, chunk.0.end as int, lv);
                assert(self.leaf_level(va, lv) == sub1.leaf_level(va, lv + 1));
                sub0.lemma_leaf_level_bound(va, lv + 1);
                if before.tables@[index as int] is None {
                    before.lemma_walk_entry(va, lv);
                    assert(sub0.leaf_level(va, lv + 1) == lv + 1);
                } else {
                    assert(before.leaf_level(va, lv) == sub0.leaf_level(va, lv + 1));
                }
            }
            assert forall|va: int|
                0 <= va && block_no(va, lv) == block_no(start, lv) && !chunk.holds(
                    va,
                ) implies (#[trigger] self.leaf_level(va, lv)) == level_beside(
                *chunk,
                va,
                if before.leaf_level(va, lv) > lv {
                    before.leaf_level(va, lv)
                } else {
                    lv + 1
                },
                lv + 1,
            ) by {
                lemma_block_entry(va, start, lv);
                lemma_piece_index(va, start, chunk.0.end as int, lv);
                assert(self.leaf_level(va, lv) == sub1.leaf_level(va, lv + 1));
                sub0.lemma_leaf_level_bound(va, lv + 1);
                if before.tables@[index as int] is None {
                    before.lemma_walk_entry(va, lv);
                    assert(sub0.leaf_level(va, lv + 1) == lv + 1);
                } else {
                    assert(before.leaf_level(va, lv) == sub0.leaf_level(va, lv + 1));
                }
            }
            assert forall|va: int| chunk.holds(va) implies #[trigger] written(*self, va, lv) by {
                lemma_piece_index(va, start, chunk.0.end as int, lv);
                assert(written(sub1, va, lv + 1));
                assert(self.leaf(va, lv) == sub1.leaf(va, lv + 1));
                assert(self.leaf_level(va, lv) == sub1.leaf_level(va, lv + 1));
            }
            assert forall|va: int|
                0 <= va && block_no(va, lv) == block_no(start, lv) && !chunk.holds(
                    va,
                ) implies #[trigger] kept(before, *self, va, lv) by {
                lemma_block_entry(va, start, lv);
                lemma_piece_index(va, start, chunk.0.end as int, lv);
                assert(kept(sub0, sub1, va, lv + 1));
                assert(self.leaf(va, lv) == sub1.leaf(va, lv + 1));
                assert(self.leaf_level(va, lv) == sub1.leaf_level(va, lv + 1));
                if before.tables@[index as int] is None {
                    before.lemma_walk_entry(va, lv);
                    assert(before.leaf(va, lv) == entry);
                    sub0.lemma_leaf_level_bound(va, lv + 1);
                    lemma_word_parts(sub0.leaf(va, lv + 1));
                } else {
                    assert(before.leaf(va, lv) == sub0.leaf(va, lv + 1));
                    assert(before.leaf_level(va, lv) == sub0.leaf_level(va, lv + 1));
                }
            }
            sub1.lemma_count_bound(lv + 1);
            if same_levels(before, *self, *chunk, lv) {
                if before.tables@[index as int] is None {
                    assert(chunk.holds(start));
                    before.lemma_walk_entry(start, lv);
                    assert(self.leaf_level(start, lv) == before.leaf_level(start, lv));
                    assert(false);
                } else {
                    assert forall|va: int| chunk.holds(va) implies (#[trigger] sub1.leaf_level(
                        va,
                        lv + 1,
                    )) == sub0.leaf_level(va, lv + 1) by {
                        lemma_piece_index(va, start, chunk.0.end as int, lv);
                        assert(self.leaf_level(va, lv) == before.leaf_level(va, lv));
                    }
                    assert(same_levels(sub0, sub1, *chunk, lv + 1));
                }
            }
        }
    }

    /// Translates `va` as the table at `level` would: the physical address
    /// and the protection bits, or nothing where the address is not mapped.
    pub fn translate(&self, va: u64, level: usize) -> (r: Option<(u64, u64)>)
        requires
            self.wf(level as int),
        ensures
            match r {
                Some((pa, protection)) => self.walk(va as int, level as int) == Some(
                    (pa as int, protection),
                ),
                None => self.walk(va as int, level as int) is None || (self.walk(
                    va as int,
                    level as int,
                ) matches Some((pa, _)) && pa > u64::MAX),
            },
        decreases 3 - level,
    {
        let gran = granularity(level);
        let index = ((va / gran) % 512) as usize;
        proof {
            lemma_index_bound(va as int, level as int);
        }
        if level < 3 {
            match &self.tables[index] {
                Some(sub) => {
                    return sub.translate(va, level + 1);
                },
                None => {},
            }
        }
        let entry = self.entries[index];
        if entry.is_valid() {
            let base = entry.output_address();
            let offset = va % gran;
            let w = entry.0;
            if offset > u64::MAX - base {
                None
            } else {
                Some((base + offset, w & 0xffff_0000_0000_0bfc))
            }
        } else {
            None
        }
    }

    /// The level of the table in which the walk for `va` ends.
    pub fn mapping_level(&self, va: u64, level: usize) -> (l: usize)
        requires
            self.wf(level as int),
        ensures
            l == self.leaf_level(va as int, level as int),
            level <= l <= 3,
        decreases 3 - level,
    {
        let gran = granularity(level);
        let index = ((va / gran) % 512) as usize;
        proof {
            lemma_index_bound(va as int, level as int);
        }
        if level < 3 {
            match &self.tables[index] {
                Some(sub) => {
                    return sub.mapping_level(va, level + 1);
                },
                None => {},
            }
        }
        level
    }

    /// The entry at which the walk for `va` ends.
    pub fn entry(&self, va: u64, level: usize) -> (d: Descriptor)
        requires
            self.wf(level as int),
        ensures
            d == self.leaf(va as int, level as int),
        decreases 3 - level,
    {
        let gran = granularity(level);
        let index = ((va / gran) % 512) as usize;
        proof {
            lemma_index_bound(va as int, level as int);
        }
        if level < 3 {
            match &self.tables[index] {
                Some(sub) => {
                    return sub.entry(va, level + 1);
                },
                None => {},
            }
        }
        self.entries[index]
    }

    /// Addresses under one entry of this table share what that entry says:
    /// the walk ends here for both or for neither, and where it ends here, it
    /// ends at that entry.
    pub proof fn lemma_one_entry(&self, va: int, other: int, level: int)
        requires
            self.wf(level),
            0 <= va,
            0 <= other,
            block_no(va, level) == block_no(other, level),
        ensures
            self.leaf_level(va, level) == level <==> self.leaf_level(other, level) == level,
            self.leaf_level(va, level) == level ==> self.leaf(va, level) == self.leaf(other, level),
    {
        lemma_block_entry(va, other, level);
        self.lemma_leaf_level_entry(va, level);
        self.lemma_leaf_level_entry(other, level);
        lemma_index_bound(va, level);
    }

    /// The number of tables below the first `n` entries of this table.
    pub closed spec fn count_first(&self, level: int, n: int) -> int
        decreases 3 - level, n,
    {
        if n <= 0 || level >= 3 {
            0
        } else {
            self.count_first(level, n - 1) + (if self.tables@[n - 1] is Some {
                self.tables@[n - 1]->0.count(level + 1)
            } else {
                0
            })
        }
    }

    /// The number of tables of the tree with this table, at `level`, as its
    /// root.
    pub closed spec fn count(&self, level: int) -> int
        decreases 3 - level, 513int,
    {
        1 + self.count_first(level, 512)
    }

    /// A tree has at least its root, and no more tables than fit under it.
    pub proof fn lemma_count_bound(&self, level: int)
        requires
            self.wf(level),
        ensures
            1 <= self.count(level) <= most_tables(level),
        decreases 3 - level, 513int,
    {
        self.lemma_count_first_bound(level, 512);
    }

    /// The tables below the first `n` entries are no more than fit there, and
    /// no fewer than those below fewer entries.
    pub proof fn lemma_count_first_bound(&self, level: int, n: int)
        requires
            self.wf(level),
            0 <= n <= 512,
        ensures
            0 <= self.count_first(level, n),
            n > 0 ==> self.count_first(level, n - 1) <= self.count_first(level, n),
            level < 3 ==> self.count_first(level, n) <= n * most_tables(level + 1),
            level >= 3 ==> self.count_first(level, n) == 0,
        decreases 3 - level, n,
    {
        if n > 0 && level < 3 {
            self.lemma_count_first_bound(level, n - 1);
            if self.tables@[n - 1] is Some {
                self.tables@[n - 1]->0.lemma_count_bound(level + 1);
            }
            assert(n * most_tables(level + 1) == (n - 1) * most_tables(level + 1) + most_tables(
                level + 1,
            )) by (nonlinear_arith);
        }
    }

    /// The tables below the first `i` entries are among those below the
    /// first `n`.
    pub proof fn lemma_count_first_grows(&self, level: int, i: int, n: int)
        requires
            self.wf(level),
            0 <= i <= n <= 512,
        ensures
            self.count_first(level, i) <= self.count_first(level, n),
        decreases n - i,
    {
        if i < n {
            self.lemma_count_first_grows(level, i, n - 1);
            self.lemma_count_first_bound(level, n);
        }
    }

    /// The number of tables of the tree with this table, at `level`, as its
    /// root.
    pub fn table_count(&self, level: usize) -> (n: usize)
        requires
            self.wf(level as int),
        ensures
            n == self.count(level as int),
            1 <= n <= most_tables(level as int),
        decreases 3 - level,
    {
        let ghost lv = level as int;
        let mut n: usize = 1;
        proof {
            self.lemma_count_bound(lv);
        }
        if level < 3 {
            let mut i: usize = 0;
            while i < 512
                invariant
                    self.wf(lv),
                    lv == level,
                    lv < 3,
                    i <= 512,
                    n == 1 + self.count_first(lv, i as int),
                    self.count(lv) <= most_tables(lv),
                decreases 512 - i,
            {
                proof {
                    self.lemma_count_first_grows(lv, i + 1, 512);
                }
                match &self.tables[i] {
                    Some(sub) => {
                        n = n + sub.table_count(level + 1);
                    },
                    None => {},
                }
                i += 1;
            }
        }
        n
    }

    /// Adds the tree with this table, at `level`, as its root to an image
    /// whose tables lie in consecutive pages from `base` on, and returns the
    /// number of the table that stands for this one. The tables that were in
    /// the image stay; the new ones translate as the tree does.
    pub fn emit(&self, level: usize, base: u64, out: &mut Vec<Vec<u64>>) -> (index: usize)
        requires
            self.wf(level as int),
            base as int % 4096 == 0,
            base + (old(out)@.len() + self.count(level as int)) * 4096 <= 0x1_0000_0000_0000,
        ensures
            index == old(out)@.len(),
            final(out)@.len() == old(out)@.len() + self.count(level as int),
            forall|j: int| 0 <= j < old(out)@.len() ==> #[trigger] final(out)@[j] == old(out)@[j],
            image_wf(words_of(final(out)@), base as int, index as int, level as int),
            forall|va: int|
                0 <= va ==> (#[trigger] image_walk(
                    words_of(final(out)@),
                    base as int,
                    index as int,
                    va,
                    level as int,
                )) == self.walk(va, level as int),
            forall|va: int|
                0 <= va ==> (#[trigger] image_leaf(
                    words_of(final(out)@),
                    base as int,
                    index as int,
                    va,
                    level as int,
                )) == self.leaf(va, level as int).0,
        decreases 3 - level,
    {
        let ghost lv = level as int;
        let ghost b = base as int;
        let ghost before = out@;
        let index = out.len();
        out.push(Vec::new());
        let mut words: Vec<u64> = Vec::new();
        let mut i: usize = 0;
        proof {
            self.lemma_count_bound(lv);
        }
        while i < 512
            invariant
                self.wf(lv),
                lv == level,
                b == base,
                b % 4096 == 0,
                i <= 512,
                index == before.len(),
                b + (before.len() + self.count(lv)) * 4096 <= 0x1_0000_0000_0000,
                out@.len() == index + 1 + self.count_first(lv, i as int),
                forall|j: int| 0 <= j < index ==> #[trigger] out@[j] == before[j],
                words@.len() == i,
                forall|j: int|
                    0 <= j < i ==> (Descriptor(#[trigger] words@[j]).table() && lv < 3
                        <==> self.tables@[j] is Some),
                forall|j: int|
                    0 <= j < i && self.tables@[j] is None ==> #[trigger] words@[j]
                        == self.entries@[j].0,
                forall|j: int|
                    0 <= j < i && self.tables@[j] is Some ==> {
                        let c = (Descriptor(#[trigger] words@[j]).address() - b) / 4096;
                        &&& Descriptor(words@[j]).address() == b + c * 4096
                        &&& index < c < out@.len()
                        &&& image_wf(words_of(out@), b, c, lv + 1)
                        &&& same_image(words_of(out@), b, c, *self.tables@[j]->0, lv + 1)
                    },
            decreases 512 - i,
        {
            let e = self.entries[i];
            let ghost img0 = words_of(out@);
            let ghost words0 = words@;
            proof {
                self.lemma_count_first_grows(lv, i + 1, 512);
                self.lemma_count_first_bound(lv, i + 1);
                self.lemma_count_first_bound(lv, i as int);
            }
            let mut word = e.0;
            if level < 3 {
                match &self.tables[i] {
                    Some(sub) => {
                        let c = sub.emit(level + 1, base, out);
                        let addr = base + (c as u64) * 4096;
                        let mut d = Descriptor(0);
                        proof {
                            lemma_page_address(addr);
                            assert(0x2u64 & 0x0000_ffff_ffff_f000 == 0 && 0x2u64 & 0x2 != 0)
                                by (bit_vector);
                        }
                        d.set(addr, Attributes { bits: TABLE_OR_PAGE });
                        word = d.0;
                        proof {
                            assert(Descriptor(word).address() == b + c * 4096);
                            assert((Descriptor(word).address() - b) / 4096 == c);
                            assert(image_wf(words_of(out@), b, c as int, lv + 1));
                            assert(same_image(words_of(out@), b, c as int, **sub, lv + 1));
                        }
                    },
                    None => {},
                }
            }
            words.push(word);
            proof {
                let img1 = words_of(out@);
                assert(words@[i as int] == word);
                assert forall|j: int| 0 <= j < i && self.tables@[j] is Some implies {
                    let c = (Descriptor(#[trigger] words@[j]).address() - b) / 4096;
                    &&& Descriptor(words@[j]).address() == b + c * 4096
                    &&& index < c < out@.len()
                    &&& image_wf(img1, b, c, lv + 1)
                    &&& same_image(img1, b, c, *self.tables@[j]->0, lv + 1)
                } by {
                    assert(words@[j] == words0[j]);
                    let c = (Descriptor(words0[j]).address() - b) / 4096;
                    lemma_image_agree(img0, img1, b, c, lv + 1);
                }
                assert forall|j: int| 0 <= j < i + 1 implies (Descriptor(
                    #[trigger] words@[j],
                ).table() && lv < 3 <==> self.tables@[j] is Some) by {
                    if j < i {
                        assert(words@[j] == words0[j]);
                    }
                }
                assert forall|j: int| 0 <= j < i + 1 && self.tables@[j] is None implies (
                #[trigger] words@[j]) == self.entries@[j].0 by {
                    if j < i {
                        assert(words@[j] == words0[j]);
                    }
                }
            }
            i += 1;
        }
        let ghost img0 = words_of(out@);
        out[index] = words;
        proof {
            let img1 = words_of(out@);
            assert(img1[index as int] == words@);
            assert forall|j: int| 0 <= j < 512 && self.tables@[j] is Some implies {
                let c = (Descriptor(#[trigger] words@[j]).address() - b) / 4096;
                &&& image_wf(img1, b, c, lv + 1)
                &&& same_image(img1, b, c, *self.tables@[j]->0, lv + 1)
            } by {
                let c = (Descriptor(words@[j]).address() - b) / 4096;
                lemma_image_agree(img0, img1, b, c, lv + 1);
            }
            assert forall|va: int| 0 <= va implies (#[trigger] image_walk(
                img1,
                b,
                index as int,
                va,
                lv,
            )) == self.walk(va, lv) by {
                let k = index_of(va, lv);
                lemma_index_bound(va, lv);
                if self.tables@[k] is Some {
                    let c = (Descriptor(words@[k]).address() - b) / 4096;
                    assert(same_image(img1, b, c, *self.tables@[k]->0, lv + 1));
                    assert(image_walk(img1, b, index as int, va, lv) == image_walk(
                        img1,
                        b,
                        c,
                        va,
                        lv + 1,
                    ));
                    assert(self.walk(va, lv) == self.tables@[k]->0.walk(va, lv + 1));
                } else {
                    assert(words@[k] == self.entries@[k].0);
                }
            }
            assert forall|va: int| 0 <= va implies (#[trigger] image_leaf(
                img1,
                b,
                index as int,
                va,
                lv,
            )) == self.leaf(va, lv).0 by {
                let k = index_of(va, lv);
                lemma_index_bound(va, lv);
                if self.tables@[k] is Some {
                    let c = (Descriptor(words@[k]).address() - b) / 4096;
                    assert(same_image(img1, b, c, *self.tables@[k]->0, lv + 1));
                    assert(image_leaf(img1, b, index as int, va, lv) == image_leaf(
                        img1,
                        b,
                        c,
                        va,
                        lv + 1,
                    ));
                    assert(self.leaf(va, lv) == self.tables@[k]->0.leaf(va, lv + 1));
                } else {
                    assert(words@[k] == self.entries@[k].0);
                }
            }
        }
        index
    }

    /// A copy of the table and of the tables below it.
    pub fn duplicate(&self, level: usize) -> (r: PageTable)
        requires
            self.wf(level as int),
        ensures
            r.wf(level as int),
            forall|va: int| 0 <= va ==> (#[trigger] r.walk(va, level as int)) == self.walk(
                va,
                level as int,
            ),
            forall|va: int| 0 <= va ==> (#[trigger] r.leaf_level(va, level as int))
                == self.leaf_level(va, level as int),
            forall|va: int| 0 <= va ==> (#[trigger] r.leaf(va, level as int)) == self.leaf(
                va,
                level as int,
            ),
        decreases 3 - level,
    {
        let ghost lv = level as int;
        let mut entries: Vec<Descriptor> = Vec::new();
        let mut tables: Vec<Option<Box<PageTable>>> = Vec::new();
        let mut i: usize = 0;
        while i < 512
            invariant
                self.wf(lv),
                lv == level,
                i <= 512,
                entries@.len() == i,
                tables@.len() == i,
                forall|j: int| 0 <= j < i ==> (#[trigger] entries@[j]) == self.entries@[j],
                forall|j: int|
                    0 <= j < i ==> ((#[trigger] tables@[j]) is Some <==> self.tables@[j] is Some),
                forall|j: int|
                    0 <= j < i && (#[trigger] tables@[j]) is Some ==> tables@[j]->0.wf(lv + 1)
                        && same_below(*tables@[j]->0, *self.tables@[j]->0, lv + 1),
            decreases 512 - i,
        {
            entries.push(self.entries[i]);
            let sub: Option<Box<PageTable>> = match &self.tables[i] {
                Some(b) => {
                    let copy = b.duplicate(level + 1);
                    Some(Box::new(copy))
                },
                None => None,
            };
            tables.push(sub);
            i += 1;
        }
        let r = PageTable { entries, tables };
        proof {
            assert forall|j: int| 0 <= j < 512 implies ((#[trigger] r.tables@[j]) is Some <==> lv < 3
                && r.entries@[j].table()) by {
                assert(r.entries@[j] == self.entries@[j]);
            }
            assert forall|j: int|
                0 <= j < 512 && lv < 3 && (#[trigger] r.entries@[j]).valid()
                    && !r.entries@[j].table() implies r.entries@[j].address() as int % granule(lv)
                == 0 by {
                assert(r.entries@[j] == self.entries@[j]);
            }
            assert forall|va: int| 0 <= va implies (#[trigger] r.walk(va, lv)) == self.walk(
                va,
                lv,
            ) by {
                let k = index_of(va, lv);
                lemma_index_bound(va, lv);
                assert(r.entries@[k] == self.entries@[k]);
                assert(r.tables@[k] is Some <==> self.tables@[k] is Some);
                if r.tables@[k] is Some {
                    assert(lv < 3);
                    assert(same_below(*r.tables@[k]->0, *self.tables@[k]->0, lv + 1));
                    assert(r.walk(va, lv) == r.tables@[k]->0.walk(va, lv + 1));
                    assert(self.walk(va, lv) == self.tables@[k]->0.walk(va, lv + 1));
                    assert(r.tables@[k]->0.walk(va, lv + 1) == self.tables@[k]->0.walk(va, lv + 1));
                } else {
                    assert(r.walk(va, lv) == self.walk(va, lv));
                }
            }
            assert forall|va: int| 0 <= va implies (#[trigger] r.leaf_level(va, lv))
                == self.leaf_level(va, lv) by {
                let k = index_of(va, lv);
                lemma_index_bound(va, lv);
                assert(r.tables@[k] is Some <==> self.tables@[k] is Some);
                if r.tables@[k] is Some {
                    assert(lv < 3);
                    assert(same_below(*r.tables@[k]->0, *self.tables@[k]->0, lv + 1));
                    assert(r.leaf_level(va, lv) == r.tables@[k]->0.leaf_level(va, lv + 1));
                    assert(self.leaf_level(va, lv) == self.tables@[k]->0.leaf_level(va, lv + 1));
                } else {
                    assert(r.leaf_level(va, lv) == self.leaf_level(va, lv));
                }
            }
            assert forall|va: int| 0 <= va implies (#[trigger] r.leaf(va, lv)) == self.leaf(
                va,
                lv,
            ) by {
                let k = index_of(va, lv);
                lemma_index_bound(va, lv);
                assert(r.entries@[k] == self.entries@[k]);
                assert(r.tables@[k] is Some <==> self.tables@[k] is Some);
                if r.tables@[k] is Some {
                    assert(lv < 3);
                    assert(same_below(*r.tables@[k]->0, *self.tables@[k]->0, lv + 1));
                    assert(r.leaf(va, lv) == r.tables@[k]->0.leaf(va, lv + 1));
                    assert(self.leaf(va, lv) == self.tables@[k]->0.leaf(va, lv + 1));
                } else {
                    assert(r.leaf(va, lv) == self.leaf(va, lv));
                }
            }
        }
        r
    }

    /// Makes the entry at `index` the same as that entry of `other`, a table
    /// of the same level, with a copy of what lies below it.
    pub fn copy_entry(&mut self, other: &PageTable, index: usize, level: usize)
        requires
            old(self).wf(level as int),
            other.wf(level as int),
            index < 512,
        ensures
            final(self).wf(level as int),
            forall|va: int|
                0 <= va ==> (#[trigger] final(self).walk(va, level as int)) == (if index_of(
                    va,
                    level as int,
                ) == index {
                    other.walk(va, level as int)
                } else {
                    old(self).walk(va, level as int)
                }),
            forall|va: int|
                0 <= va ==> (#[trigger] final(self).leaf_level(va, level as int)) == (if index_of(
                    va,
                    level as int,
                ) == index {
                    other.leaf_level(va, level as int)
                } else {
                    old(self).leaf_level(va, level as int)
                }),
            forall|va: int|
                0 <= va ==> (#[trigger] final(self).leaf(va, level as int)) == (if index_of(
                    va,
                    level as int,
                ) == index {
                    other.leaf(va, level as int)
                } else {
                    old(self).leaf(va, level as int)
                }),
    {
        let ghost before = *self;
        let ghost lv = level as int;
        let sub: Option<Box<PageTable>> = match &other.tables[index] {
            Some(b) => {
                let copy = b.duplicate(level + 1);
                Some(Box::new(copy))
            },
            None => None,
        };
        self.entries[index] = other.entries[index];
        self.tables[index] = sub;
        proof {
            assert forall|j: int| 0 <= j < 512 implies ((#[trigger] self.tables@[j]) is Some <==> lv
                < 3 && self.entries@[j].table()) by {
                if j != index {
                    assert(self.entries@[j] == before.entries@[j]);
                    assert(self.tables@[j] == before.tables@[j]);
                }
            }
            assert forall|j: int| 0 <= j < 512 && (#[trigger] self.tables@[j]) is Some implies lv < 3
                && self.tables@[j]->0.wf(lv + 1) by {
                if j != index {
                    assert(self.tables@[j] == before.tables@[j]);
                }
            }
            assert forall|j: int|
                0 <= j < 512 && lv < 3 && (#[trigger] self.entries@[j]).valid()
                    && !self.entries@[j].table() implies self.entries@[j].address() as int
                % granule(lv) == 0 by {
                if j != index {
                    assert(self.entries@[j] == before.entries@[j]);
                }
            }
            if self.tables@[index as int] is Some {
                assert(same_below(
                    *self.tables@[index as int]->0,
                    *other.tables@[index as int]->0,
                    lv + 1,
                ));
            }
            assert forall|va: int| 0 <= va implies (#[trigger] self.walk(va, lv)) == (if index_of(
                va,
                lv,
            ) == index {
                other.walk(va, lv)
            } else {
                before.walk(va, lv)
            }) by {
                let k = index_of(va, lv);
                lemma_index_bound(va, lv);
                if k != index {
                    assert(self.entries@[k] == before.entries@[k]);
                    assert(self.tables@[k] == before.tables@[k]);
                    assert(self.walk(va, lv) == before.walk(va, lv));
                } else {
                    assert(self.entries@[k] == other.entries@[k]);
                    assert(self.tables@[k] is Some <==> other.tables@[k] is Some);
                    if self.tables@[k] is Some {
                        assert(lv < 3);
                        assert(self.walk(va, lv) == self.tables@[k]->0.walk(va, lv + 1));
                        assert(other.walk(va, lv) == other.tables@[k]->0.walk(va, lv + 1));
                    } else {
                        assert(self.walk(va, lv) == other.walk(va, lv));
                    }
                }
            }
            assert forall|va: int| 0 <= va implies (#[trigger] self.leaf_level(va, lv)) == (
            if index_of(va, lv) == index {
                other.leaf_level(va, lv)
            } else {
                before.leaf_level(va, lv)
            }) by {
                let k = index_of(va, lv);
                lemma_index_bound(va, lv);
                if k != index {
                    assert(self.tables@[k] == before.tables@[k]);
                    assert(self.leaf_level(va, lv) == before.leaf_level(va, lv));
                } else {
                    assert(self.tables@[k] is Some <==> other.tables@[k] is Some);
                    if self.tables@[k] is Some {
                        assert(lv < 3);
                        assert(self.leaf_level(va, lv) == self.tables@[k]->0.leaf_level(
                            va,
                            lv + 1,
                        ));
                        assert(other.leaf_level(va, lv) == other.tables@[k]->0.leaf_level(
                            va,
                            lv + 1,
                        ));
                    } else {
                        assert(self.leaf_level(va, lv) == other.leaf_level(va, lv));
                    }
                }
            }
            assert forall|va: int| 0 <= va implies (#[trigger] self.leaf(va, lv)) == (if index_of(
                va,
                lv,
            ) == index {
                other.leaf(va, lv)
            } else {
                before.leaf(va, lv)
            }) by {
                let k = index_of(va, lv);
                lemma_index_bound(va, lv);
                if k != index {
                    assert(self.entries@[k] == before.entries@[k]);
                    assert(self.tables@[k] == before.tables@[k]);
                    assert(self.leaf(va, lv) == before.leaf(va, lv));
                } else {
                    assert(self.entries@[k] == other.entries@[k]);
                    assert(self.tables@[k] is Some <==> other.tables@[k] is Some);
                    if self.tables@[k] is Some {
                        assert(lv < 3);
                        assert(self.leaf(va, lv) == self.tables@[k]->0.leaf(va, lv + 1));
                        assert(other.leaf(va, lv) == other.tables@[k]->0.leaf(va, lv + 1));
                    } else {
                        assert(self.leaf(va, lv) == other.leaf(va, lv));
                    }
                }
            }
        }
    }

    /// What a table does after one entry that leads to no table was
    /// replaced by a valid entry that maps a block or a page.
    proof fn lemma_entry_written(&self, after: PageTable, i: int, level: int)
        requires
            self.wf(level),
            0 <= i < 512,
            self.tables@[i] is None,
            after.tables@ == self.tables@,
            after.entries@ == self.entries@.update(i, after.entries@[i]),
            after.entries@[i].valid(),
            level < 3 ==> !after.entries@[i].table() && after.entries@[i].address() as int
                % granule(level) == 0,
        ensures
            after.wf(level),
            forall|va: int|
                0 <= va && index_of(va, level) != i ==> (#[trigger] after.walk(va, level))
                    == self.walk(va, level) && after.leaf_level(va, level) == self.leaf_level(
                    va,
                    level,
                ),
            forall|va: int|
                0 <= va && index_of(va, level) == i ==> (#[trigger] after.walk(va, level)) == Some(
                    (
                        after.entries@[i].address() + va % granule(level),
                        after.entries@[i].protection(),
                    ),
                ) && after.leaf_level(va, level) == level,
            forall|va: int|
                0 <= va ==> (#[trigger] after.leaf(va, level)) == (if index_of(va, level) == i {
                    after.entries@[i]
                } else {
                    self.leaf(va, level)
                }),
            after.count(level) == self.count(level),
    {
        self.lemma_count_same(after, level, 512);
        assert forall|va: int| 0 <= va implies (#[trigger] after.leaf(va, level)) == (if index_of(
            va,
            level,
        ) == i {
            after.entries@[i]
        } else {
            self.leaf(va, level)
        }) by {
            lemma_index_bound(va, level);
            if index_of(va, level) != i {
                assert(after.entries@[index_of(va, level)] == self.entries@[index_of(va, level)]);
            }
        }
        assert forall|j: int| 0 <= j < 512 implies ((#[trigger] after.tables@[j]) is Some <==> level
            < 3 && after.entries@[j].table()) by {
            if j != i {
                assert(after.entries@[j] == self.entries@[j]);
            }
        }
        assert forall|j: int|
            0 <= j < 512 && level < 3 && (#[trigger] after.entries@[j]).valid()
                && !after.entries@[j].table() implies after.entries@[j].address() as int % granule(
            level,
        ) == 0 by {
            if j != i {
                assert(after.entries@[j] == self.entries@[j]);
            }
        }
        assert forall|va: int| 0 <= va && index_of(va, level) != i implies (#[trigger] after.walk(
            va,
            level,
        )) == self.walk(va, level) && after.leaf_level(va, level) == self.leaf_level(va, level) by {
            lemma_index_bound(va, level);
            assert(after.entries@[index_of(va, level)] == self.entries@[index_of(va, level)]);
        }
    }

    /// What a table does after one entry was made to lead to a table of the
    /// next level.
    proof fn lemma_table_written(&self, after: PageTable, i: int, level: int)
        requires
            self.wf(level),
            level < 3,
            0 <= i < 512,
            after.tables@ == self.tables@.update(i, after.tables@[i]),
            after.entries@ == self.entries@.update(i, after.entries@[i]),
            after.entries@[i].table(),
            after.tables@[i] is Some,
            after.tables@[i]->0.wf(level + 1),
        ensures
            after.wf(level),
            forall|va: int|
                0 <= va && index_of(va, level) != i ==> (#[trigger] after.walk(va, level))
                    == self.walk(va, level) && after.leaf_level(va, level) == self.leaf_level(
                    va,
                    level,
                ),
            forall|va: int|
                0 <= va && index_of(va, level) == i ==> (#[trigger] after.walk(va, level))
                    == after.tables@[i]->0.walk(va, level + 1) && after.leaf_level(va, level)
                    == after.tables@[i]->0.leaf_level(va, level + 1),
            forall|va: int|
                0 <= va ==> (#[trigger] after.leaf(va, level)) == (if index_of(va, level) == i {
                    after.tables@[i]->0.leaf(va, level + 1)
                } else {
                    self.leaf(va, level)
                }),
            after.count(level) == self.count(level) + after.tables@[i]->0.count(level + 1) - (
            if self.tables@[i] is Some {
                self.tables@[i]->0.count(level + 1)
            } else {
                0
            }),
    {
        self.lemma_count_written(after, i, level, 512);
        assert forall|va: int| 0 <= va implies (#[trigger] after.leaf(va, level)) == (if index_of(
            va,
            level,
        ) == i {
            after.tables@[i]->0.leaf(va, level + 1)
        } else {
            self.leaf(va, level)
        }) by {
            lemma_index_bound(va, level);
            if index_of(va, level) != i {
                assert(after.entries@[index_of(va, level)] == self.entries@[index_of(va, level)]);
                assert(after.tables@[index_of(va, level)] == self.tables@[index_of(va, level)]);
            }
        }
        assert forall|j: int| 0 <= j < 512 implies ((#[trigger] after.tables@[j]) is Some <==> level
            < 3 && after.entries@[j].table()) by {
            if j != i {
                assert(after.entries@[j] == self.entries@[j]);
                assert(after.tables@[j] == self.tables@[j]);
            }
        }
        assert forall|j: int| 0 <= j < 512 && (#[trigger] after.tables@[j]) is Some implies level
            < 3 && after.tables@[j]->0.wf(level + 1) by {
            if j != i {
                assert(after.tables@[j] == self.tables@[j]);
            }
        }
        assert forall|j: int|
            0 <= j < 512 && level < 3 && (#[trigger] after.entries@[j]).valid()
                && !after.entries@[j].table() implies after.entries@[j].address() as int % granule(
            level,
        ) == 0 by {
            if j != i {
                assert(after.entries@[j] == self.entries@[j]);
            }
        }
        assert forall|va: int| 0 <= va && index_of(va, level) != i implies (#[trigger] after.walk(
            va,
            level,
        )) == self.walk(va, level) && after.leaf_level(va, level) == self.leaf_level(va, level) by {
            lemma_index_bound(va, level);
            assert(after.entries@[index_of(va, level)] == self.entries@[index_of(va, level)]);
            assert(after.tables@[index_of(va, level)] == self.tables@[index_of(va, level)]);
        }
    }

    /// The walk for an address ends at this level or below, and not below the
    /// leaf level.
    pub proof fn lemma_leaf_level_bound(&self, va: int, level: int)
        requires
            self.wf(level),
            0 <= va,
        ensures
            level <= self.leaf_level(va, level) <= 3,
        decreases 3 - level,
    {
        let i = index_of(va, level);
        lemma_index_bound(va, level);
        if level < 3 && self.tables@[i] is Some {
            self.tables@[i]->0.lemma_leaf_level_bound(va, level + 1);
        }
    }

    /// The walk for an address ends at this level exactly when its entry
    /// leads to no table.
    proof fn lemma_leaf_level_entry(&self, va: int, level: int)
        requires
            self.wf(level),
            0 <= va,
        ensures
            self.leaf_level(va, level) == level <==> level == 3 || !self.entries@[index_of(
                va,
                level,
            )].table(),
    {
        let i = index_of(va, level);
        lemma_index_bound(va, level);
        if level < 3 && self.tables@[i] is Some {
            self.tables@[i]->0.lemma_leaf_level_bound(va, level + 1);
        }
    }

    /// What the entry for `va` says on its own: a table walk that ends at
    /// this level gives this.
    proof fn lemma_walk_entry(&self, va: int, level: int)
        requires
            self.wf(level),
            0 <= va,
            level == 3 || self.tables@[index_of(va, level)] is None,
        ensures
            self.leaf_level(va, level) == level,
            self.walk(va, level) == (if self.entries@[index_of(va, level)].valid() {
                Some(
                    (
                        self.entries@[index_of(va, level)].address() + va % granule(level),
                        self.entries@[index_of(va, level)].protection(),
                    ),
                )
            } else {
                None
            }),
    {
    }

    /// A table without tables below it translates by its own entries.
    proof fn lemma_walk_leaf(&self, va: int, level: int)
        requires
            self.entries@.len() == 512,
            self.tables@.len() == 512,
            forall|j: int| 0 <= j < 512 ==> (#[trigger] self.tables@[j]) is None,
        ensures
            self.leaf_level(va, level) == level,
            self.leaf(va, level) == self.entries@[index_of(va, level)],
            self.walk(va, level) == (if self.entries@[index_of(va, level)].valid() {
                Some(
                    (
                        self.entries@[index_of(va, level)].address() + va % granule(level),
                        self.entries@[index_of(va, level)].protection(),
                    ),
                )
            } else {
                None
            }),
    {
        let i = index_of(va, level);
        lemma_mod_bound(va / granule(level), 512);
        assert(self.tables@[i] is None);
    }

    /// A table without tables below it is the only table of its tree.
    proof fn lemma_count_leaf(&self, level: int, n: int)
        requires
            self.tables@.len() == 512,
            0 <= n <= 512,
            forall|j: int| 0 <= j < 512 ==> (#[trigger] self.tables@[j]) is None,
        ensures
            self.count_first(level, n) == 0,
            n == 512 ==> self.count(level) == 1,
        decreases n,
    {
        if n > 0 {
            self.lemma_count_leaf(level, n - 1);
            assert(self.tables@[n - 1] is None);
        }
    }

    /// How the number of tables changes where the table below one entry is
    /// replaced.
    proof fn lemma_count_written(&self, after: PageTable, i: int, level: int, n: int)
        requires
            level < 3,
            0 <= i < 512,
            0 <= n <= 512,
            self.tables@.len() == 512,
            after.tables@ == self.tables@.update(i, after.tables@[i]),
            after.tables@[i] is Some,
        ensures
            after.count_first(level, n) == self.count_first(level, n) + (if i < n {
                after.tables@[i]->0.count(level + 1) - (if self.tables@[i] is Some {
                    self.tables@[i]->0.count(level + 1)
                } else {
                    0
                })
            } else {
                0
            }),
        decreases n,
    {
        if n > 0 {
            self.lemma_count_written(after, i, level, n - 1);
            if n - 1 != i {
                assert(after.tables@[n - 1] == self.tables@[n - 1]);
            }
        }
    }

    /// Trees with the same tables below the root have the same number of
    /// tables.
    proof fn lemma_count_same(&self, other: PageTable, level: int, n: int)
        requires
            self.tables@ == other.tables@,
            0 <= n <= 512,
        ensures
            self.count_first(level, n) == other.count_first(level, n),
            n == 512 ==> self.count(level) == other.count(level),
        decreases n,
    {
        if n > 0 {
            self.lemma_count_same(other, level, n - 1);
        }
    }
}

/// The table at the root of a tree, with its level.
pub struct RootTable {
    table: Box<PageTable>,
    level: usize,
}

impl RootTable {
    /// The invariant: the level is one of the four, and the tree is valid.
    pub closed spec fn wf(&self) -> bool {
        self.level <= 3 && self.table.wf(self.level as int)
    }

    /// The level of the root table.
    pub closed spec fn root_level(&self) -> int {
        self.level as int
    }

    /// The number of bytes that the tree spans, from address 0 on.
    pub open spec fn size(&self) -> int {
        granule(self.root_level()) * 512
    }

    /// What the tree makes of address `va`: the physical address and the
    /// protection bits, or nothing where the address is not mapped.
    pub closed spec fn walk(&self, va: int) -> Option<(int, u64)> {
        self.table.walk(va, self.level as int)
    }

    /// The level of the table in which the walk for `va` ends.
    pub closed spec fn leaf_level(&self, va: int) -> int {
        self.table.leaf_level(va, self.level as int)
    }

    /// The entry at which the walk for `va` ends.
    pub closed spec fn leaf(&self, va: int) -> Descriptor {
        self.table.leaf(va, self.level as int)
    }

    /// Whether the entry at which the walk for `va` ends bears the marks of
    /// an entry that maps memory at its level.
    pub open spec fn written(&self, va: int) -> bool {
        self.leaf(va).marks() == written_marks(self.leaf_level(va))
    }

    /// Whether the walk for `va` ends in `after` where a change that was not
    /// meant for `va` may leave it: at the same entry as in this tree, or,
    /// where the block that held `va` was divided, further down, at an entry
    /// that is empty if the old one was not valid and bears the marks of its
    /// level if it was.
    pub open spec fn kept(&self, after: RootTable, va: int) -> bool {
        &&& after.leaf_level(va) >= self.leaf_level(va)
        &&& after.leaf_level(va) == self.leaf_level(va) ==> after.leaf(va) == self.leaf(va)
        &&& after.leaf_level(va) != self.leaf_level(va) ==> (if self.leaf(va).valid() {
            after.written(va)
        } else {
            after.leaf(va).0 == 0
        })
    }

    /// Whether the walk for every address of `range` ends at the same level
    /// in this tree and in `after`.
    pub open spec fn same_levels(&self, after: RootTable, range: Chunk) -> bool {
        forall|va: int|
            range.holds(va) ==> (#[trigger] after.leaf_level(va)) == self.leaf_level(va)
    }

    /// The walk gives what the entry at which it ends says: nothing where
    /// the entry is invalid, and else the address of the entry with the
    /// offset of `va` in what the entry spans, and the protection of the
    /// entry. It ends at the level of the root or below.
    pub proof fn lemma_walk_by_leaf(&self, va: int)
        requires
            self.wf(),
            0 <= va,
        ensures
            self.root_level() <= self.leaf_level(va) <= 3,
            self.walk(va) == (if self.leaf(va).valid() {
                Some(
                    (
                        self.leaf(va).address() + va % granule(self.leaf_level(va)),
                        self.leaf(va).protection(),
                    ),
                )
            } else {
                None
            }),
    {
        self.table.lemma_walk_by_leaf(va, self.level as int);
        self.table.lemma_leaf_level_bound(va, self.level as int);
    }

    /// The word of a written entry follows from what the walk gives and from
    /// the level at which it ends: the address of the block or page, the
    /// protection, and the marks of that level.
    pub proof fn lemma_written_word(&self, va: int)
        requires
            self.wf(),
            0 <= va,
            self.written(va),
        ensures
            self.walk(va) matches Some((pa, protection)) && self.leaf(va).address() == pa - va
                % granule(self.leaf_level(va)) && self.leaf(va).0 == (self.leaf(va).address()
                | protection) | written_marks(self.leaf_level(va)),
    {
        self.lemma_walk_by_leaf(va);
        lemma_word_parts(self.leaf(va));
    }

    /// Addresses under one entry of the root table share what that entry
    /// says: the walk ends at the root for both or for neither, and where it
    /// ends there, it ends at that entry.
    pub proof fn lemma_one_entry(&self, va: int, other: int)
        requires
            self.wf(),
            0 <= va,
            0 <= other,
            block_no(va, self.root_level()) == block_no(other, self.root_level()),
        ensures
            self.leaf_level(va) == self.root_level() <==> self.leaf_level(other)
                == self.root_level(),
            self.leaf_level(va) == self.root_level() ==> self.leaf(va) == self.leaf(other),
    {
        self.table.lemma_one_entry(va, other, self.level as int);
    }

    /// A tree that maps nothing, with its root at `level`: one table of
    /// empty entries.
    pub fn new(level: usize) -> (r: RootTable)
        requires
            level <= 3,
        ensures
            r.wf(),
            r.root_level() == level,
            r.count() == 1,
            forall|va: int| (#[trigger] r.walk(va)) is None,
            forall|va: int| (#[trigger] r.leaf_level(va)) == level,
            forall|va: int| (#[trigger] r.leaf(va)).0 == 0,
    {
        RootTable { table: Box::new(PageTable::new()), level }
    }

    /// The level of the root table.
    pub fn level(&self) -> (l: usize)
        ensures
            l == self.root_level(),
    {
        self.level
    }

    /// Makes the root entry at `index` the same as that entry of `other`, a
    /// root table of the same level: what `other` maps under that entry, this
    /// tree maps from now on.
    pub fn clone_raw_entry(&mut self, other: &PageTable, index: usize)
        requires
            old(self).wf(),
            other.wf(old(self).root_level()),
            index < 512,
        ensures
            final(self).wf(),
            final(self).root_level() == old(self).root_level(),
            forall|va: int|
                0 <= va ==> (#[trigger] final(self).walk(va)) == (if index_of(
                    va,
                    old(self).root_level(),
                ) == index {
                    other.walk(va, old(self).root_level())
                } else {
                    old(self).walk(va)
                }),
            forall|va: int|
                0 <= va ==> (#[trigger] final(self).leaf_level(va)) == (if index_of(
                    va,
                    old(self).root_level(),
                ) == index {
                    other.leaf_level(va, old(self).root_level())
                } else {
                    old(self).leaf_level(va)
                }),
            forall|va: int|
                0 <= va ==> (#[trigger] final(self).leaf(va)) == (if index_of(
                    va,
                    old(self).root_level(),
                ) == index {
                    other.leaf(va, old(self).root_level())
                } else {
                    old(self).leaf(va)
                }),
    {
        self.table.copy_entry(other, index, self.level);
    }

    /// Maps `range` to the physical addresses from `pa` on with the given
    /// flags. What the tree mapped outside the range stays as it was.
    ///
    /// The walk for an address of the range ends at the first level at which
    /// the range holds all that the entry for it spans and the entry led to
    /// no table; the walk for another address ends where it ended, or, where
    /// the range holds a part of what its entry spanned, at the first level
    /// below at which the range holds nothing of it. Each entry that is
    /// written bears the valid bit and the accessed bit, and at the last
    /// level the bit that makes it a page. No table is added where the walks
    /// for the range end where they ended.
    ///
    /// The range is made of whole pages and lies in the span of the tree; the
    /// physical addresses stay below 2^48; and `pa` lies as far into a root
    /// entry as the start of the range does, so that blocks can map it.
    pub fn map_range(&mut self, range: &Chunk, pa: u64, flags: Attributes)
        requires
            old(self).wf(),
            range.0.start <= range.0.end <= old(self).size(),
            range.0.end <= 0x1_0000_0000_0000,
            range.0.start as int % 4096 == 0,
            range.0.end as int % 4096 == 0,
            flags.for_mapping(),
            pa as int % 4096 == 0,
            pa + (range.0.end - range.0.start) <= 0x1_0000_0000_0000,
            pa as int % granule(old(self).root_level()) == range.0.start as int % granule(
                old(self).root_level(),
            ),
        ensures
            final(self).wf(),
            final(self).root_level() == old(self).root_level(),
            forall|va: int|
                0 <= va < old(self).size() ==> (#[trigger] final(self).walk(va)) == (
                if range.holds(va) {
                    Some((pa + (va - range.0.start), flags.bits & 0xffff_0000_0000_0bfc))
                } else {
                    old(self).walk(va)
                }),
            forall|va: int|
                range.holds(va) ==> ((#[trigger] final(self).leaf_level(va)) == old(self).root_level() <==> old(self).root_level() == 3 || (range.covers_block(
                    va,
                    old(self).root_level(),
                ) && old(self).leaf_level(va) == old(self).root_level())),
            forall|va: int|
                range.holds(va) ==> (#[trigger] final(self).leaf_level(va)) == level_after(
                    *range,
                    va,
                    old(self).leaf_level(va),
                    old(self).root_level(),
                ),
            forall|va: int|
                0 <= va < old(self).size() && !range.holds(va) ==> (#[trigger] final(self).leaf_level(va))
                    == level_beside(*range, va, old(self).leaf_level(va), old(self).root_level()),
            forall|va: int| range.holds(va) ==> #[trigger] final(self).written(va),
            forall|va: int|
                0 <= va < old(self).size() && !range.holds(va) ==> #[trigger] old(self).kept(
                    *final(self),
                    va,
                ),
            forall|va: int|
                0 <= va < old(self).size() && !range.touches_block(va, old(self).root_level())
                    ==> (#[trigger] final(self).leaf_level(va)) == old(self).leaf_level(va),
            forall|va: int|
                0 <= va < old(self).size() && !range.touches_block(va, old(self).root_level())
                    ==> (#[trigger] final(self).leaf(va)) == old(self).leaf(va),
            forall|va: int|
                0 <= va && old(self).root_level() < 3 && range.touches_block(
                    va,
                    old(self).root_level(),
                ) && !range.covers_block(va, old(self).root_level()) ==> (
                #[trigger] final(self).leaf_level(va)) > old(self).root_level(),
            final(self).count() >= old(self).count(),
            old(self).same_levels(*final(self), *range) ==> final(self).count() == old(
                self,
            ).count(),
    {
        let ghost before = *self;
        if range.0.start < range.0.end {
            let ghost lv = self.level as int;
            proof {
                lemma_granule(lv);
                lemma_small_span(range.0.start as int, lv);
                lemma_small_span(range.0.end - 1, lv);
                assert forall|va: int| 0 <= va < self.size() implies (#[trigger] span_no(va, lv))
                    == span_no(range.0.start as int, lv) by {
                    lemma_small_span(va, lv);
                }
            }
            self.table.map_range(range, pa, flags, self.level);
            proof {
                assert forall|va: int| range.holds(va) implies #[trigger] self.written(va) by {
                    assert(written(*self.table, va, lv));
                }
                assert forall|va: int|
                    0 <= va < before.size() && !range.holds(va) implies #[trigger] before.kept(
                    *self,
                    va,
                ) by {
                    assert(span_no(va, lv) == span_no(range.0.start as int, lv));
                    assert(kept(*before.table, *self.table, va, lv));
                }
                assert forall|va: int|
                    0 <= va < before.size() && !range.touches_block(va, lv) implies (
                #[trigger] self.leaf_level(va)) == before.leaf_level(va) by {
                    assert(span_no(va, lv) == span_no(range.0.start as int, lv));
                }
                assert forall|va: int|
                    0 <= va < before.size() && !range.touches_block(va, lv) implies (
                #[trigger] self.leaf(va)) == before.leaf(va) by {
                    assert(span_no(va, lv) == span_no(range.0.start as int, lv));
                }
                if before.same_levels(*self, *range) {
                    assert forall|va: int| range.holds(va) implies (
                    #[trigger] self.table.leaf_level(va, lv)) == before.table.leaf_level(va, lv) by {
                        assert(self.leaf_level(va) == before.leaf_level(va));
                    }
                    assert(same_levels(*before.table, *self.table, *range, lv));
                }
            }
        } else {
            proof {
                assert forall|va: int| 0 <= va < before.size() implies (#[trigger] self.leaf_level(
                    va,
                )) == level_beside(*range, va, before.leaf_level(va), before.root_level()) by {
                    before.table.lemma_leaf_level_bound(va, before.level as int);
                    lemma_level_beside_apart(
                        *range,
                        va,
                        before.leaf_level(va),
                        before.level as int,
                    );
                }
            }
        }
    }

    /// The entry at which the walk for `va` ends.
    pub fn entry(&self, va: u64) -> (d: Descriptor)
        requires
            self.wf(),
        ensures
            d == self.leaf(va as int),
    {
        self.table.entry(va, self.level)
    }

    /// The number of tables of the tree.
    pub closed spec fn count(&self) -> int {
        self.table.count(self.level as int)
    }

    /// The number of tables of the tree: at least one, and no more than fit
    /// under a root of its level.
    pub fn table_count(&self) -> (n: usize)
        requires
            self.wf(),
        ensures
            n == self.count(),
            1 <= n <= most_tables(self.root_level()),
    {
        self.table.table_count(self.level)
    }

    /// The tables of the tree as the hardware reads them, for consecutive
    /// pages from `base` on: table `k` of the image is to lie at address
    /// `base + k * 4096`, the root is table 0, and each entry that leads to a
    /// table holds the address of that table. A walk of the image from the
    /// root gives what the tree gives.
    pub fn image(&self, base: u64) -> (img: Vec<Vec<u64>>)
        requires
            self.wf(),
            base as int % 4096 == 0,
            base + self.count() * 4096 <= 0x1_0000_0000_0000,
        ensures
            img@.len() == self.count(),
            image_wf(words_of(img@), base as int, 0, self.root_level()),
            forall|va: int|
                0 <= va ==> (#[trigger] image_walk(
                    words_of(img@),
                    base as int,
                    0,
                    va,
                    self.root_level(),
                )) == self.walk(va),
            forall|va: int|
                0 <= va ==> (#[trigger] image_leaf(
                    words_of(img@),
                    base as int,
                    0,
                    va,
                    self.root_level(),
                )) == self.leaf(va).0,
    {
        let mut img: Vec<Vec<u64>> = Vec::new();
        self.table.emit(self.level, base, &mut img);
        img
    }

    /// The level of the table in which the walk for `va` ends.
    pub fn mapping_level(&self, va: u64) -> (l: usize)
        requires
            self.wf(),
        ensures
            l == self.leaf_level(va as int),
            self.root_level() <= l <= 3,
    {
        self.table.mapping_level(va, self.level)
    }

    /// Translates `va` as the tree would: the physical address and the
    /// protection bits, or nothing where the address is not mapped.
    pub fn translate(&self, va: u64) -> (r: Option<(u64, u64)>)
        requires
            self.wf(),
        ensures
            match r {
                Some((pa, protection)) => self.walk(va as int) == Some((pa as int, protection)),
                None => self.walk(va as int) is None || (self.walk(va as int) matches Some(
                    (pa, _),
                ) && pa > u64::MAX),
            },
    {
        self.table.translate(va, self.level)
    }
}

} // verus!
