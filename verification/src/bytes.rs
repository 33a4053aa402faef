//! Numbers in byte sequences: reading and writing them in little-endian
//! order, and the arithmetic behind it.

use vstd::prelude::*;
use vstd::arithmetic::div_mod::{
    lemma_div_denominator, lemma_mod_breakdown, lemma_mod_mod, lemma_mod_twice,
};

verus! {

/// 256 to the power of `n`.
pub open spec fn pow256(n: nat) -> int
    decreases n,
{
    if n == 0 {
        1
    } else {
        256 * pow256((n - 1) as nat)
    }
}

/// The number that the `n` bytes from `off` on stand for, the first byte
/// counting least.
pub open spec fn le_value(bytes: Seq<u8>, off: int, n: nat) -> int
    decreases n,
{
    if n == 0 {
        0
    } else {
        le_value(bytes, off, (n - 1) as nat) + pow256((n - 1) as nat) * bytes[off + n - 1]
    }
}

/// The number that the `n` bytes from `off` on stand for, the first byte
/// counting most.
pub open spec fn be_value(bytes: Seq<u8>, off: int, n: nat) -> int
    decreases n,
{
    if n == 0 {
        0
    } else {
        256 * be_value(bytes, off, (n - 1) as nat) + bytes[off + n - 1]
    }
}

/// Reads the little-endian number of `n` bytes at `off`.
pub fn read_le(bytes: &[u8], off: usize, n: usize) -> (v: u64)
    requires
        n <= 8,
        off + n <= bytes@.len(),
    ensures
        v == le_value(bytes@, off as int, n as nat),
        v < pow256(n as nat),
{
    let mut v: u64 = 0;
    let mut i: usize = n;
    let len = bytes.len();
    proof {
        lemma_pow256_bound(n as nat);
        assert(pow256(n as nat) * 0 == 0) by (nonlinear_arith);
    }
    while i > 0
        invariant
            n <= 8,
            off + n <= bytes@.len(),
            bytes@.len() == len,
            i <= n,
            v < pow256((n - i) as nat),
            pow256(n as nat) <= 0x1_0000_0000_0000_0000,
            le_value(bytes@, off as int, n as nat) == le_value(bytes@, off as int, i as nat)
                + pow256(i as nat) * v,
        decreases i,
    {
        let b = bytes[off + i - 1] as u64;
        proof {
            lemma_pow256_bound((n - i + 1) as nat);
            assert(pow256(i as nat) * v == pow256((i - 1) as nat) * (256 * v)) by (nonlinear_arith)
                requires
                    pow256(i as nat) == 256 * pow256((i - 1) as nat),
            ;
            assert(pow256((i - 1) as nat) * (256 * v) + pow256((i - 1) as nat) * b == pow256(
                (i - 1) as nat,
            ) * (256 * v + b)) by (nonlinear_arith);
        }
        v = 256 * v + b;
        i -= 1;
    }
    proof {
        assert(pow256(0) * v == v) by (nonlinear_arith)
            requires
                pow256(0) == 1,
        ;
    }
    v
}

/// 256 to the power of at most 8 is positive and at most 2^64.
pub proof fn lemma_pow256_bound(n: nat)
    requires
        n <= 8,
    ensures
        0 < pow256(n) <= 0x1_0000_0000_0000_0000,
{
    reveal_with_fuel(pow256, 10);
}

/// Bytes that agree on `[off, off + n)` stand for one number.
pub proof fn lemma_le_value_same(a: Seq<u8>, b: Seq<u8>, off: int, n: nat)
    requires
        forall|i: int| off <= i < off + n ==> a[i] == b[i],
    ensures
        le_value(a, off, n) == le_value(b, off, n),
    decreases n,
{
    if n > 0 {
        lemma_le_value_same(a, b, off, (n - 1) as nat);
    }
}

/// Writes `value`, cut to `n` bytes, as a little-endian number at `off`.
pub fn write_le(bytes: &mut [u8], off: usize, n: usize, value: u64)
    requires
        n <= 8,
        off + n <= old(bytes)@.len(),
    ensures
        final(bytes)@.len() == old(bytes)@.len(),
        le_value(final(bytes)@, off as int, n as nat) == value as int % pow256(n as nat),
        forall|i: int|
            0 <= i < old(bytes)@.len() && !(off <= i < off + n) ==> final(bytes)@[i] == old(
                bytes,
            )@[i],
{
    let mut rest: u64 = value;
    let mut i: usize = 0;
    let len = bytes.len();
    proof {
        assert(value as int % 1 == 0);
    }
    while i < n
        invariant
            n <= 8,
            off + n <= bytes@.len(),
            bytes@.len() == len,
            bytes@.len() == old(bytes)@.len(),
            i <= n,
            rest == value as int / pow256(i as nat),
            le_value(bytes@, off as int, i as nat) == value as int % pow256(i as nat),
            forall|j: int|
                0 <= j < bytes@.len() && !(off <= j < off + i) ==> bytes@[j] == old(bytes)@[j],
        decreases n - i,
    {
        let ghost before = bytes@;
        bytes[off + i] = (rest % 256) as u8;
        proof {
            lemma_pow256_bound(i as nat);
            lemma_le_value_same(before, bytes@, off as int, i as nat);
            lemma_mod_breakdown(value as int, pow256(i as nat), 256);
            lemma_div_denominator(value as int, pow256(i as nat), 256);
            assert(pow256(i as nat) * 256 == pow256((i + 1) as nat));
        }
        rest = rest / 256;
        i += 1;
    }
}

/// Cutting a number to 64 bits first does not change what is left of it
/// after cutting it to `n` bytes.
pub proof fn lemma_cut(x: int, n: nat)
    requires
        0 <= x,
        n == 1 || n == 2 || n == 4 || n == 8,
    ensures
        (x % 0x1_0000_0000_0000_0000) % pow256(n) == x % pow256(n),
{
    reveal_with_fuel(pow256, 10);
    if n == 1 {
        assert(pow256(1) == 256);
        assert(256 * 0x100_0000_0000_0000 == 0x1_0000_0000_0000_0000int);
        lemma_mod_mod(x, 256, 0x100_0000_0000_0000);
    } else if n == 2 {
        assert(pow256(2) == 65536);
        assert(65536 * 0x1_0000_0000_0000 == 0x1_0000_0000_0000_0000int);
        lemma_mod_mod(x, 65536, 0x1_0000_0000_0000);
    } else if n == 4 {
        assert(pow256(4) == 0x1_0000_0000);
        assert(0x1_0000_0000 * 0x1_0000_0000 == 0x1_0000_0000_0000_0000int);
        lemma_mod_mod(x, 0x1_0000_0000, 0x1_0000_0000);
    } else {
        assert(pow256(8) == 0x1_0000_0000_0000_0000);
        lemma_mod_twice(x, 0x1_0000_0000_0000_0000);
    }
}

/// A copy of the bytes from `lo` up to `hi`.
pub fn copy_range(bytes: &[u8], lo: usize, hi: usize) -> (v: Vec<u8>)
    requires
        lo <= hi <= bytes@.len(),
    ensures
        v@ == bytes@.subrange(lo as int, hi as int),
{
    let mut v: Vec<u8> = Vec::new();
    let mut i: usize = lo;
    while i < hi
        invariant
            lo <= i <= hi,
            hi <= bytes@.len(),
            v@.len() == i - lo,
            forall|j: int| 0 <= j < i - lo ==> v@[j] == bytes@[lo + j],
        decreases hi - i,
    {
        v.push(bytes[i]);
        i += 1;
    }
    proof {
        assert(v@ =~= bytes@.subrange(lo as int, hi as int));
    }
    v
}

/// The powers of 256 up to the eighth.
pub proof fn lemma_pow256_values()
    ensures
        pow256(0) == 1,
        pow256(1) == 0x100,
        pow256(2) == 0x1_0000,
        pow256(3) == 0x100_0000,
        pow256(4) == 0x1_0000_0000,
        pow256(5) == 0x100_0000_0000,
        pow256(6) == 0x1_0000_0000_0000,
        pow256(7) == 0x100_0000_0000_0000,
        pow256(8) == 0x1_0000_0000_0000_0000,
{
    reveal_with_fuel(pow256, 10);
}

} // verus!
