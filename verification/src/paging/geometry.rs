//! The geometry of the translation tables: which entry, block and span an
//! address belongs to at each level, and how the pieces of a range lie in
//! them.

use vstd::prelude::*;
use vstd::arithmetic::div_mod::{
    lemma_add_mod_noop, lemma_div_denominator, lemma_fundamental_div_mod,
    lemma_fundamental_div_mod_converse, lemma_mod_bound, lemma_mod_mod, lemma_mod_multiples_vanish,
};
use crate::align::{
    align_down, lemma_align_down, lemma_aligned_pages, lemma_block_of, lemma_multiple_below,
    lemma_same_block,
};
use crate::paging::{Chunk, granule};

verus! {

/// The number of the entry that translates `va` in a table at `level`.
pub open spec fn index_of(va: int, level: int) -> int {
    (va / granule(level)) % 512
}

/// The number of the block of `va` at `level`: addresses with one number lie
/// under one entry.
pub open spec fn block_no(va: int, level: int) -> int {
    va / granule(level)
}

/// The number of the span of `va` at `level`: addresses with one number lie
/// under one table.
pub open spec fn span_no(va: int, level: int) -> int {
    va / (granule(level) * 512)
}

/// The sizes of the levels: each is a whole number of pages, divides the
/// address space, and is 512 times the next.
pub proof fn lemma_granule(level: int)
    requires
        0 <= level <= 3,
    ensures
        granule(level) >= 4096,
        granule(level) % 4096 == 0,
        0x1_0000_0000_0000int % granule(level) == 0,
        level < 3 ==> granule(level) == granule(level + 1) * 512,
{
}

/// Addresses of one block have one entry and lie in one span.
pub proof fn lemma_block_entry(va: int, other: int, level: int)
    requires
        0 <= level <= 3,
        0 <= va,
        0 <= other,
        block_no(va, level) == block_no(other, level),
    ensures
        index_of(va, level) == index_of(other, level),
        span_no(va, level) == span_no(other, level),
{
    lemma_div_denominator(va, granule(level), 512);
    lemma_div_denominator(other, granule(level), 512);
}

/// Addresses of one span that have one entry lie in one block.
pub proof fn lemma_entry_block(va: int, other: int, level: int)
    requires
        0 <= level <= 3,
        0 <= va,
        0 <= other,
        span_no(va, level) == span_no(other, level),
        index_of(va, level) == index_of(other, level),
    ensures
        block_no(va, level) == block_no(other, level),
{
    lemma_div_denominator(va, granule(level), 512);
    lemma_div_denominator(other, granule(level), 512);
    lemma_fundamental_div_mod(va / granule(level), 512);
    lemma_fundamental_div_mod(other / granule(level), 512);
}

/// The entry numbers of a table run from 0 to 511.
pub proof fn lemma_index_bound(va: int, level: int)
    requires
        0 <= level <= 3,
        0 <= va,
    ensures
        0 <= index_of(va, level) < 512,
{
    lemma_mod_bound(va / granule(level), 512);
}

/// Two addresses that are congruent modulo `g` stay so when both move by
/// `d`.
pub proof fn lemma_congruent_shift(x: int, y: int, d: int, g: int)
    requires
        0 < g,
        x % g == y % g,
    ensures
        (x + d) % g == (y + d) % g,
{
    lemma_add_mod_noop(x, d, g);
    lemma_add_mod_noop(y, d, g);
}

/// Two addresses that are congruent modulo the size of a level are congruent
/// modulo the size of the next level.
pub proof fn lemma_finer_congruence(x: int, y: int, level: int)
    requires
        0 <= level < 3,
        x % granule(level) == y % granule(level),
    ensures
        x % granule(level + 1) == y % granule(level + 1),
{
    lemma_mod_mod(x, granule(level + 1), 512);
    lemma_mod_mod(y, granule(level + 1), 512);
}

/// The block around an address below a limit that is a multiple of the block
/// size ends at or below the limit.
pub proof fn lemma_block_fits(x: int, g: int, limit: int)
    requires
        0 < g,
        0 <= x < limit,
        limit % g == 0,
    ensures
        align_down(x, g) + g <= limit,
{
    let m = align_down(x, g) + g;
    lemma_align_down(x, g);
    if m > limit {
        lemma_same_block(x, m - 1, g);
        lemma_multiple_below(m - 1, limit, g);
    }
}

/// The first piece of a chunk lies in the block of the chunk's start, and is
/// that block where it is aligned at both ends.
pub proof fn lemma_first_piece(c: Chunk, level: int)
    requires
        0 <= level <= 3,
        c.wf(),
    ensures
        c.0.start < c.first_end(level) <= c.0.end,
        c.first_end(level) <= align_down(c.0.start as int, granule(level)) + granule(level),
        c.first_end(level) % 4096 == 0,
        block_no(c.first_end(level) - 1, level) == block_no(c.0.start as int, level),
        c.first_end(level) < c.0.end ==> c.first_end(level) % granule(level) == 0,
        c.0.start as int % granule(level) == 0 && c.first_end(level) % granule(level) == 0
            ==> c.first_end(level) == c.0.start + granule(level),
        level == 3 ==> c.first_end(level) == c.0.start + 4096,
{
    let g = granule(level);
    let start = c.0.start as int;
    let a = align_down(start, g);
    let stop = c.first_end(level);
    lemma_align_down(start, g);
    lemma_aligned_pages(a, g);
    lemma_mod_multiples_vanish(1, a, g);
    lemma_same_block(start, stop - 1, g);
    if stop < a + g {
        lemma_same_block(start, stop, g);
    }
}

/// The flags that a block or a page entry is written with keep the
/// protection bits of the flags that were asked for, and leave the address
/// bits alone; the page flags have the table-or-page bit, the block flags
/// do not.
pub proof fn lemma_leaf_flags(fb: u64)
    requires
        fb & 0x0000_ffff_ffff_f002 == 0,
    ensures
        (fb | 0x400) & 0x0000_ffff_ffff_f000 == 0,
        (fb | 0x400) & 0xffff_0000_0000_0bfc == fb & 0xffff_0000_0000_0bfc,
        (fb | 0x400) & 0x2 == 0,
        ((fb | 0x2) | 0x400) & 0x0000_ffff_ffff_f000 == 0,
        ((fb | 0x2) | 0x400) & 0xffff_0000_0000_0bfc == fb & 0xffff_0000_0000_0bfc,
        ((fb | 0x2) | 0x400) & 0x2 != 0,
{
    assert(fb & 0x0000_ffff_ffff_f002 == 0 ==> (fb | 0x400) & 0x0000_ffff_ffff_f000 == 0 && (fb
        | 0x400) & 0xffff_0000_0000_0bfc == fb & 0xffff_0000_0000_0bfc && (fb | 0x400) & 0x2 == 0
        && ((fb | 0x2) | 0x400) & 0x0000_ffff_ffff_f000 == 0 && ((fb | 0x2) | 0x400)
        & 0xffff_0000_0000_0bfc == fb & 0xffff_0000_0000_0bfc && ((fb | 0x2) | 0x400) & 0x2 != 0)
        by (bit_vector);
}

/// In the span of a piece, the addresses with the entry of the piece are
/// those of its block, and the addresses of the piece are among them.
/// The marks of an entry that was written to map a block, and of one that
/// was written to map a page.
pub proof fn lemma_written_marks(pa: u64, fb: u64)
    requires
        pa & 0xffff_0000_0000_0fff == 0,
        fb & 0x0000_ffff_ffff_f002 == 0,
    ensures
        (pa | ((fb | 0x400) | 0x1)) & 0x403 == 0x401,
        (pa | (((fb | 0x2) | 0x400) | 0x1)) & 0x403 == 0x403,
{
    assert(pa & 0xffff_0000_0000_0fff == 0 && fb & 0x0000_ffff_ffff_f002 == 0 ==> (pa | ((fb
        | 0x400) | 0x1)) & 0x403 == 0x401 && (pa | (((fb | 0x2) | 0x400) | 0x1)) & 0x403 == 0x403)
        by (bit_vector);
}

pub proof fn lemma_piece_index(va: int, start: int, stop: int, level: int)
    requires
        0 <= level <= 3,
        0 <= va,
        0 <= start < stop,
        stop <= align_down(start, granule(level)) + granule(level),
    ensures
        start <= va < stop ==> index_of(va, level) == index_of(start, level) && block_no(va, level)
            == block_no(start, level),
        span_no(va, level) == span_no(start, level) && index_of(va, level) == index_of(start, level)
            ==> block_no(va, level) == block_no(start, level) && align_down(start, granule(level))
            <= va < align_down(start, granule(level)) + granule(level),
        block_no(va, level) == block_no(start, level) && level < 3 ==> span_no(va, level + 1)
            == span_no(start, level + 1),
{
    let g = granule(level);
    lemma_align_down(start, g);
    if start <= va < stop {
        lemma_same_block(start, va, g);
        lemma_block_entry(va, start, level);
    }
    if span_no(va, level) == span_no(start, level) && index_of(va, level) == index_of(
        start,
        level,
    ) {
        lemma_entry_block(va, start, level);
        lemma_block_of(start, va, g);
    }
}

/// The addresses of a range that lies in one span lie in that span.
pub proof fn lemma_in_span(s0: int, va: int, end: int, level: int)
    requires
        0 <= level <= 3,
        0 <= s0 <= va < end,
        span_no(s0, level) == span_no(end - 1, level),
    ensures
        span_no(va, level) == span_no(s0, level),
{
    let w = granule(level) * 512;
    lemma_block_of(s0, end - 1, w);
    lemma_same_block(s0, va, w);
}

/// What follows a piece that ends at a boundary lies in another block.
pub proof fn lemma_next_block(start: int, stop: int, va: int, level: int)
    requires
        0 <= level <= 3,
        0 <= start < stop <= va,
        stop == align_down(start, granule(level)) + granule(level),
    ensures
        block_no(va, level) != block_no(start, level),
{
    if block_no(va, level) == block_no(start, level) {
        lemma_block_of(start, va, granule(level));
    }
}

/// What comes before a piece that starts at a boundary lies in another
/// block.
/// The level at which the walk for an address `va` of `range` ends once the
/// range is mapped from a table at `level` on, where it ended at the level
/// `before`: the first level at which the range holds all that the entry for
/// `va` spans and the entry led to no table, and the last level where there
/// is none before it.
pub open spec fn level_after(range: Chunk, va: int, before: int, level: int) -> int
    decreases 3 - level,
{
    if level >= 3 {
        3
    } else if range.covers_block(va, level) && before <= level {
        level
    } else {
        level_after(range, va, before, level + 1)
    }
}

/// Where the walk ended above the level at which the mapping starts, it does
/// not matter at which level it ended.
pub proof fn lemma_level_after_above(range: Chunk, va: int, one: int, other: int, level: int)
    requires
        0 <= level <= 3,
        one <= level,
        other <= level,
    ensures
        level_after(range, va, one, level) == level_after(range, va, other, level),
    decreases 3 - level,
{
    if level < 3 {
        lemma_level_after_above(range, va, one, other, level + 1);
    }
}

/// A multiple of what an entry spans at one level is a multiple of what an
/// entry spans at a lower level of the tree.
pub proof fn lemma_granule_multiple(y: int, coarse: int, fine: int)
    requires
        0 <= coarse <= fine <= 3,
        y % granule(coarse) == 0,
    ensures
        y % granule(fine) == 0,
    decreases fine - coarse,
{
    if coarse < fine {
        lemma_mod_mod(y, granule(coarse + 1), 512);
        lemma_granule_multiple(y, coarse + 1, fine);
    }
}

/// What the entry for an address spans at one level holds what the entry
/// for it spans at a lower level of the tree.
pub proof fn lemma_nested(va: int, coarse: int, fine: int)
    requires
        0 <= coarse <= fine <= 3,
        0 <= va,
    ensures
        align_down(va, granule(coarse)) <= align_down(va, granule(fine)),
        align_down(va, granule(fine)) + granule(fine) <= align_down(va, granule(coarse))
            + granule(coarse),
{
    let big = granule(coarse);
    let small = granule(fine);
    let low = align_down(va, big);
    let high = low + big;
    lemma_align_down(va, big);
    lemma_align_down(va, small);
    lemma_mod_multiples_vanish(1, low, big);
    lemma_granule_multiple(low, coarse, fine);
    lemma_granule_multiple(high, coarse, fine);
    lemma_multiple_below(va, low, small);
    if high < align_down(va, small) + small {
        lemma_same_block(va, high, small);
    }
}

/// For an address of a piece of a range, the part of the range under one
/// entry of a table at `level`, the piece holds all that an entry of that
/// level or a lower one spans exactly when the range does.
pub proof fn lemma_piece_covers_below(range: Chunk, piece: Chunk, va: int, level: int, lower: int)
    requires
        0 <= level <= lower <= 3,
        range.0.start <= piece.0.start <= va < piece.0.end <= range.0.end,
        piece.0.start == range.0.start || piece.0.start as int % granule(level) == 0,
        piece.0.end == (if range.0.end < align_down(piece.0.start as int, granule(level))
            + granule(level) {
            range.0.end as int
        } else {
            align_down(piece.0.start as int, granule(level)) + granule(level)
        }),
    ensures
        piece.covers_block(va, lower) == range.covers_block(va, lower),
{
    let g = granule(level);
    let start = piece.0.start as int;
    lemma_align_down(start, g);
    lemma_same_block(start, va, g);
    lemma_nested(va, level, lower);
}

/// For an address of a piece of a range, the level at which the walk ends
/// once the piece is mapped is the one at which it ends once the range is.
pub proof fn lemma_level_after_piece(
    range: Chunk,
    piece: Chunk,
    va: int,
    before: int,
    level: int,
    lower: int,
)
    requires
        0 <= level <= lower <= 3,
        range.0.start <= piece.0.start <= va < piece.0.end <= range.0.end,
        piece.0.start == range.0.start || piece.0.start as int % granule(level) == 0,
        piece.0.end == (if range.0.end < align_down(piece.0.start as int, granule(level))
            + granule(level) {
            range.0.end as int
        } else {
            align_down(piece.0.start as int, granule(level)) + granule(level)
        }),
    ensures
        level_after(piece, va, before, lower) == level_after(range, va, before, lower),
    decreases 3 - lower,
{
    lemma_piece_covers_below(range, piece, va, level, lower);
    if lower < 3 {
        lemma_level_after_piece(range, piece, va, before, level, lower + 1);
    }
}

/// The level at which the walk for an address `va` outside `range` ends
/// once the range is mapped from a table at `level` on, where it ended at
/// the level `before`: the first level, not above `before`, at which the
/// range holds nothing of what the entry for `va` spans, and the last level
/// where there is none before it.
pub open spec fn level_beside(range: Chunk, va: int, before: int, level: int) -> int
    decreases 3 - level,
{
    if level >= 3 {
        3
    } else if before <= level && !range.touches_block(va, level) {
        level
    } else {
        level_beside(range, va, before, level + 1)
    }
}

/// Where the walk ended above the level at which the mapping starts, it does
/// not matter at which level it ended.
pub proof fn lemma_level_beside_above(range: Chunk, va: int, one: int, other: int, level: int)
    requires
        0 <= level <= 3,
        one <= level,
        other <= level,
    ensures
        level_beside(range, va, one, level) == level_beside(range, va, other, level),
    decreases 3 - level,
{
    if level < 3 {
        lemma_level_beside_above(range, va, one, other, level + 1);
    }
}

/// A chunk that holds a byte of what the entry for an address spans at one
/// level holds a byte of what the entry for it spans at a higher level.
pub proof fn lemma_touches_nested(range: Chunk, va: int, coarse: int, fine: int)
    requires
        0 <= coarse <= fine <= 3,
        0 <= va,
        range.touches_block(va, fine),
    ensures
        range.touches_block(va, coarse),
{
    lemma_nested(va, coarse, fine);
}

/// Where the range holds nothing of what the entry for an address spans, the
/// walk for the address ends where it ended.
pub proof fn lemma_level_beside_apart(range: Chunk, va: int, before: int, level: int)
    requires
        0 <= level <= before <= 3,
        0 <= va,
        !range.touches_block(va, level),
    ensures
        level_beside(range, va, before, level) == before,
    decreases 3 - level,
{
    if level < 3 && before > level {
        if range.touches_block(va, level + 1) {
            lemma_touches_nested(range, va, level, level + 1);
        }
        lemma_level_beside_apart(range, va, before, level + 1);
    }
}

/// What the entries for two addresses span at one level lies apart where the
/// addresses are not under one entry.
pub proof fn lemma_blocks_apart(x: int, y: int, level: int)
    requires
        0 <= level <= 3,
        0 <= x,
        0 <= y,
        block_no(x, level) != block_no(y, level),
    ensures
        align_down(x, granule(level)) + granule(level) <= align_down(y, granule(level))
            || align_down(y, granule(level)) + granule(level) <= align_down(x, granule(level)),
{
    let g = granule(level);
    let a = align_down(x, g);
    let b = align_down(y, g);
    lemma_align_down(x, g);
    lemma_align_down(y, g);
    lemma_mod_multiples_vanish(1, a, g);
    lemma_mod_multiples_vanish(1, b, g);
    if a <= b {
        if b < a + g {
            lemma_same_block(x, b, g);
            lemma_same_block(y, b, g);
        }
    } else {
        if a < b + g {
            lemma_same_block(y, a, g);
            lemma_same_block(x, a, g);
        }
    }
}

/// A piece under one entry of a table at `level` changes nothing for the
/// addresses under the other entries: with the piece or without it, the
/// chunk before it holds a byte of what an entry for such an address spans,
/// at that level or a lower one, or holds none.
pub proof fn lemma_touches_other_block(
    s0: u64,
    start: u64,
    stop: u64,
    va: int,
    level: int,
    lower: int,
)
    requires
        0 <= level <= lower <= 3,
        0 <= va,
        s0 <= start < stop <= align_down(start as int, granule(level)) + granule(level),
        start == s0 || start as int % granule(level) == 0,
        block_no(va, level) != block_no(start as int, level),
    ensures
        Chunk(s0..stop).touches_block(va, lower) == Chunk(s0..start).touches_block(va, lower),
{
    let g = granule(level);
    lemma_align_down(start as int, g);
    lemma_blocks_apart(va, start as int, level);
    lemma_nested(va, level, lower);
    lemma_align_down(va, granule(lower));
}

/// For the addresses under the entry of a piece, the piece alone decides
/// what the chunk that ends with it holds of what their entries span.
pub proof fn lemma_touches_own_block(
    s0: u64,
    start: u64,
    stop: u64,
    va: int,
    level: int,
    lower: int,
)
    requires
        0 <= level <= lower <= 3,
        0 <= va,
        s0 <= start < stop <= align_down(start as int, granule(level)) + granule(level),
        start == s0 || start as int % granule(level) == 0,
        block_no(va, level) == block_no(start as int, level),
    ensures
        Chunk(s0..stop).touches_block(va, lower) == Chunk(start..stop).touches_block(va, lower),
{
    let g = granule(level);
    lemma_align_down(start as int, g);
    lemma_block_of(start as int, va, g);
    lemma_same_block(start as int, va, g);
    lemma_nested(va, level, lower);
    lemma_align_down(va, granule(lower));
}

/// For an address under another entry than a piece, the walk ends at the
/// same level with the piece mapped or without it.
pub proof fn lemma_level_beside_other_block(
    s0: u64,
    start: u64,
    stop: u64,
    va: int,
    before: int,
    level: int,
    lower: int,
)
    requires
        0 <= level <= lower <= 3,
        0 <= va,
        s0 <= start < stop <= align_down(start as int, granule(level)) + granule(level),
        start == s0 || start as int % granule(level) == 0,
        block_no(va, level) != block_no(start as int, level),
    ensures
        level_beside(Chunk(s0..stop), va, before, lower) == level_beside(
            Chunk(s0..start),
            va,
            before,
            lower,
        ),
    decreases 3 - lower,
{
    lemma_touches_other_block(s0, start, stop, va, level, lower);
    if lower < 3 {
        lemma_level_beside_other_block(s0, start, stop, va, before, level, lower + 1);
    }
}

/// For an address under the entry of a piece, the walk ends at the level
/// that the piece alone gives.
pub proof fn lemma_level_beside_own_block(
    s0: u64,
    start: u64,
    stop: u64,
    va: int,
    before: int,
    level: int,
    lower: int,
)
    requires
        0 <= level <= lower <= 3,
        0 <= va,
        s0 <= start < stop <= align_down(start as int, granule(level)) + granule(level),
        start == s0 || start as int % granule(level) == 0,
        block_no(va, level) == block_no(start as int, level),
    ensures
        level_beside(Chunk(s0..stop), va, before, lower) == level_beside(
            Chunk(start..stop),
            va,
            before,
            lower,
        ),
    decreases 3 - lower,
{
    lemma_touches_own_block(s0, start, stop, va, level, lower);
    if lower < 3 {
        lemma_level_beside_own_block(s0, start, stop, va, before, level, lower + 1);
    }
}

/// A block that a chunk does not touch is touched by no part of the chunk,
/// and holds no address of it.
pub proof fn lemma_touches_grows(s0: u64, start: u64, stop: u64, va: int, level: int)
    requires
        0 <= level <= 3,
        0 <= va,
        s0 <= start < stop,
        !Chunk(s0..stop).touches_block(va, level),
    ensures
        !Chunk(s0..start).touches_block(va, level),
        block_no(va, level) != block_no(start as int, level),
        !(s0 <= va < stop),
{
    let g = granule(level);
    lemma_align_down(va, g);
    if block_no(va, level) == block_no(start as int, level) {
        lemma_block_of(va, start as int, g);
    }
}

pub proof fn lemma_previous_block(start: int, va: int, level: int)
    requires
        0 <= level <= 3,
        0 <= va < start,
        start % granule(level) == 0,
    ensures
        block_no(va, level) != block_no(start, level),
{
    if block_no(va, level) == block_no(start, level) {
        lemma_block_of(start, va, granule(level));
    }
}

/// A piece of a range is aligned at both ends exactly when the range holds
/// the whole block of the piece.
pub proof fn lemma_piece_covers(range: Chunk, start: int, stop: int, va: int, level: int)
    requires
        0 <= level <= 3,
        range.0.start <= start <= va < stop <= range.0.end,
        start == range.0.start || start % granule(level) == 0,
        stop == (if range.0.end < align_down(start, granule(level)) + granule(level) {
            range.0.end as int
        } else {
            align_down(start, granule(level)) + granule(level)
        }),
    ensures
        block_no(va, level) == block_no(start, level),
        range.covers_block(va, level) <==> start % granule(level) == 0 && stop % granule(level)
            == 0,
{
    let g = granule(level);
    lemma_align_down(start, g);
    lemma_same_block(start, va, g);
    lemma_mod_multiples_vanish(1, align_down(start, g), g);
    if stop < align_down(start, g) + g {
        lemma_same_block(start, stop, g);
    }
}

/// The addresses below the size of a tree lie in its first span.
pub proof fn lemma_small_span(va: int, level: int)
    requires
        0 <= level <= 3,
        0 <= va < granule(level) * 512,
    ensures
        span_no(va, level) == 0,
{
    lemma_fundamental_div_mod_converse(va, granule(level) * 512, 0, va);
}

} // verus!
