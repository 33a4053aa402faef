//! Cache maintenance: how many lines of what size a range of memory takes.

use vstd::prelude::*;

verus! {

/// 2 to the power of `n`.
pub open spec fn pow2(n: nat) -> int
    decreases n,
{
    if n == 0 {
        1
    } else {
        2 * pow2((n - 1) as nat)
    }
}

/// The size of a cache line in bytes, for a line size field of a cache
/// register: the field gives the binary logarithm of the number of words of
/// four bytes.
pub open spec fn line_size_of(field: nat) -> int {
    4 * pow2(field)
}

/// The size of a cache line for a line size field of at most four bits.
pub fn line_size(field: u64) -> (size: usize)
    requires
        field <= 15,
    ensures
        size == line_size_of(field as nat),
        4 <= size <= 0x20000,
{
    let mut size: usize = 4;
    let mut i: u64 = 0;
    proof {
        lemma_pow2_15();
    }
    while i < field
        invariant
            i <= field <= 15,
            size == 4 * pow2(i as nat),
            pow2(15) == 32768,
        decreases field - i,
    {
        proof {
            lemma_pow2_grows((i + 1) as nat, 15);
        }
        size = size * 2;
        i += 1;
    }
    proof {
        lemma_pow2_grows(field as nat, 15);
    }
    size
}

/// The powers of two grow.
pub proof fn lemma_pow2_grows(a: nat, b: nat)
    requires
        a <= b,
    ensures
        0 < pow2(a) <= pow2(b),
    decreases b,
{
    if a < b {
        lemma_pow2_grows(a, (b - 1) as nat);
    } else {
        lemma_pow2_positive(a);
    }
}

/// 2 to the power of 15.
pub proof fn lemma_pow2_15()
    ensures
        pow2(15) == 32768,
{
    reveal_with_fuel(pow2, 16);
}

/// The powers of two are positive.
pub proof fn lemma_pow2_positive(a: nat)
    ensures
        0 < pow2(a),
    decreases a,
{
    if a > 0 {
        lemma_pow2_positive((a - 1) as nat);
    }
}

/// The data cache lines to clean so that instructions fetched from `len`
/// bytes see what was written to them: the size of a line and the number of
/// lines, or nothing where the cache type register `ctr` says, by bit 28,
/// that no cleaning is needed. Bits 16 to 19 of the register give the line
/// size.
pub fn dcache_clean_to_pou(ctr: u64, len: usize) -> (lines: Option<(usize, usize)>)
    ensures
        lines == (if (ctr / 0x1000_0000) % 2 != 0 {
            None
        } else {
            let size = line_size_of(((ctr / 0x1_0000) % 16) as nat);
            Some((size as usize, ((len + size - 1) / size) as usize))
        }),
{
    if (ctr / 0x1000_0000) % 2 != 0 {
        return None;
    }
    let size = line_size((ctr / 0x1_0000) % 16);
    let whole = len / size;
    proof {
        vstd::arithmetic::div_mod::lemma_div_is_ordered_by_denominator(len as int, 4, size as int);
    }
    let count = if len % size == 0 {
        whole
    } else {
        whole + 1
    };
    proof {
        lemma_round_up(len as int, size as int);
    }
    Some((size, count))
}

/// Dividing after adding the divisor less one rounds up.
pub proof fn lemma_round_up(x: int, d: int)
    requires
        0 <= x,
        0 < d,
    ensures
        (x + d - 1) / d == (if x % d == 0 {
            x / d
        } else {
            x / d + 1
        }),
{
    vstd::arithmetic::div_mod::lemma_fundamental_div_mod(x, d);
    vstd::arithmetic::div_mod::lemma_mod_bound(x, d);
    let q = x / d;
    let r = x % d;
    assert(q * d == d * q && (q + 1) * d == d * q + d) by (nonlinear_arith);
    if r == 0 {
        vstd::arithmetic::div_mod::lemma_fundamental_div_mod_converse(x + d - 1, d, q, d - 1);
    } else {
        vstd::arithmetic::div_mod::lemma_fundamental_div_mod_converse(x + d - 1, d, q + 1, r - 1);
    }
}

/// The lines to zero in a fresh page: the size of a line and the number of
/// lines in a page of 4096 bytes, for the zeroing register `dczid`, whose
/// lowest four bits give the line size.
pub fn zero_lines(dczid: u64) -> (lines: (usize, usize))
    ensures
        lines.0 == line_size_of((dczid % 16) as nat),
        lines.1 == 4096int / line_size_of((dczid % 16) as nat),
{
    let size = line_size(dczid % 16);
    (size, 4096 / size)
}

} // verus!
