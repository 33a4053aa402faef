//! Random numbers: which sources the machine has, and how the words that
//! they deliver fill a buffer.

use vstd::prelude::*;
use vstd::arithmetic::div_mod::lemma_div_denominator;
use crate::bytes::{le_value, lemma_pow256_bound, lemma_pow256_values, pow256, write_le};

verus! {

/// The bit position of the field of the instruction set register that tells
/// whether the processor has a random number instruction.
pub const ID_AA64ISAR0_RNDR_SHIFT: usize = 60;

pub const PSCI_1_0_PSCI_VERSION: u32 = 0x84000000;

pub const PSCI_1_0_PSCI_FEATURES: u32 = 0x8400000a;

pub const PSCI_1_0_PSCI_VERSION_1_0: i32 = 0x10000;

pub const ARM_SMCCC_VERSION: u32 = 0x80000000;

pub const ARM_SMCCC_VERSION_1_1: i32 = 0x10001;

pub const ARM_SMCCC_TRNG_VERSION: u32 = 0x84000050;

pub const ARM_SMCCC_TRNG_VERSION_1_0: i32 = 0x10000;

pub const ARM_SMCCC_TRNG_FEATURES: u32 = 0x84000051;

pub const ARM_SMCCC_TRNG_RND64: u32 = 0xc4000053;

/// The number of bits that one call of the hypervisor's generator delivers
/// at most.
pub const MAX_BITS_PER_CALL: usize = 192;

/// The sources of random numbers that the machine has.
#[derive(Clone, Copy, PartialEq, Eq, Structural, Debug)]
pub struct Random {
    pub have_smccc: bool,
    pub have_rndr: bool,
}

/// Whether the processor has the random number instruction: the highest four
/// bits of the instruction set register are not all zero.
pub fn have_rndr(isar0: u64) -> (r: bool)
    ensures
        r == (isar0 >= 0x1000_0000_0000_0000),
{
    isar0 >= 0x1000_0000_0000_0000
}

/// Whether the hypervisor offers its random number generator, by what it
/// answered to five questions: the version of the power interface, whether
/// that interface knows the calling convention, the version of the calling
/// convention, the version of the generator, and whether the generator
/// delivers 64-bit words.
pub fn have_smccc(
    psci_version: i32,
    psci_features: i32,
    smccc_version: i32,
    trng_version: i32,
    trng_features: i32,
) -> (r: bool)
    ensures
        r == (psci_version >= 0x10000 && psci_features == 0 && smccc_version >= 0x10001
            && trng_version >= 0x10000 && trng_features == 0),
{
    psci_version >= PSCI_1_0_PSCI_VERSION_1_0 && psci_features == 0 && smccc_version
        >= ARM_SMCCC_VERSION_1_1 && trng_version >= ARM_SMCCC_TRNG_VERSION_1_0 && trng_features
        == 0
}

impl Random {
    /// The sources of a machine, by the value of its instruction set
    /// register and whether its hypervisor offers a generator.
    pub fn new(isar0: u64, smccc: bool) -> (r: Random)
        ensures
            r.have_smccc == smccc,
            r.have_rndr == (isar0 >= 0x1000_0000_0000_0000),
    {
        Random { have_smccc: smccc, have_rndr: have_rndr(isar0) }
    }
}

/// The number of bits to ask the hypervisor's generator for when `remaining`
/// bytes are still to be filled.
pub fn bits_to_request(remaining: usize) -> (bits: usize)
    ensures
        bits == (if remaining >= 24 {
            192
        } else {
            8 * remaining
        }),
{
    if remaining >= 24 {
        MAX_BITS_PER_CALL
    } else {
        8 * remaining
    }
}

/// Fills the bytes from `pos` on with the bytes of `word`, least byte first,
/// as far as there is room, and returns where the next byte goes.
pub fn fill_low(bytes: &mut [u8], pos: usize, word: u64) -> (next: usize)
    requires
        pos <= old(bytes)@.len(),
    ensures
        final(bytes)@.len() == old(bytes)@.len(),
        next == (if old(bytes)@.len() - pos >= 8 {
            pos + 8
        } else {
            old(bytes)@.len() as int
        }),
        le_value(final(bytes)@, pos as int, (next - pos) as nat) == word as int % pow256(
            (next - pos) as nat,
        ),
        forall|i: int|
            0 <= i < old(bytes)@.len() && !(pos <= i < next) ==> final(bytes)@[i] == old(bytes)@[i],
{
    let room = bytes.len() - pos;
    let n = if room >= 8 {
        8
    } else {
        room
    };
    write_le(bytes, pos, n, word);
    pos + n
}

/// `word` without its `m` lowest bytes.
pub fn upper_bytes(word: u64, m: usize) -> (v: u64)
    requires
        m <= 8,
    ensures
        v == word as int / pow256(m as nat),
{
    let mut v = word;
    let mut i: usize = 0;
    while i < m
        invariant
            i <= m <= 8,
            v == word as int / pow256(i as nat),
        decreases m - i,
    {
        proof {
            lemma_pow256_bound(i as nat);
            lemma_div_denominator(word as int, pow256(i as nat), 256);
            assert(pow256(i as nat) * 256 == pow256((i + 1) as nat));
        }
        v = v / 256;
        i += 1;
    }
    v
}

/// Fills the bytes from `pos` on with the highest bytes of `word`, as many
/// as there is room for, the lowest of them first, and returns where the next
/// byte goes. The hypervisor's generator fills its words from the highest
/// byte down, so these are the bytes that it has set.
pub fn fill_high(bytes: &mut [u8], pos: usize, word: u64) -> (next: usize)
    requires
        pos <= old(bytes)@.len(),
    ensures
        final(bytes)@.len() == old(bytes)@.len(),
        next == (if old(bytes)@.len() - pos >= 8 {
            pos + 8
        } else {
            old(bytes)@.len() as int
        }),
        le_value(final(bytes)@, pos as int, (next - pos) as nat) == word as int / pow256(
            (8 - (next - pos)) as nat,
        ),
        forall|i: int|
            0 <= i < old(bytes)@.len() && !(pos <= i < next) ==> final(bytes)@[i] == old(bytes)@[i],
{
    let room = bytes.len() - pos;
    let n = if room >= 8 {
        8
    } else {
        room
    };
    let top = upper_bytes(word, 8 - n);
    proof {
        lemma_top_fits(word, n as nat);
    }
    write_le(bytes, pos, n, top);
    pos + n
}

/// The `n` highest bytes of a 64-bit word are a number of `n` bytes.
pub proof fn lemma_top_fits(word: u64, n: nat)
    requires
        n <= 8,
    ensures
        (word as int / pow256((8 - n) as nat)) % pow256(n) == word as int / pow256((8 - n) as nat),
{
    let k = (8 - n) as nat;
    lemma_pow256_values();
    let whole = pow256(k) * pow256(n);
    if n == 0 {
        assert(whole == 0x1_0000_0000_0000_0000 * 1);
    } else if n == 1 {
        assert(whole == 0x100_0000_0000_0000 * 0x100);
    } else if n == 2 {
        assert(whole == 0x1_0000_0000_0000 * 0x1_0000);
    } else if n == 3 {
        assert(whole == 0x100_0000_0000 * 0x100_0000);
    } else if n == 4 {
        assert(whole == 0x1_0000_0000 * 0x1_0000_0000);
    } else if n == 5 {
        assert(whole == 0x100_0000 * 0x100_0000_0000);
    } else if n == 6 {
        assert(whole == 0x1_0000 * 0x1_0000_0000_0000);
    } else if n == 7 {
        assert(whole == 0x100 * 0x100_0000_0000_0000);
    } else {
        assert(whole == 1 * 0x1_0000_0000_0000_0000);
    }
    assert(whole == 0x1_0000_0000_0000_0000);
    let q = word as int / pow256(k);
    assert(0 <= q < pow256(n)) by (nonlinear_arith)
        requires
            q == word as int / pow256(k),
            pow256(k) > 0,
            pow256(n) > 0,
            0 <= word < pow256(k) * pow256(n),
    ;
    vstd::arithmetic::div_mod::lemma_small_mod(q as nat, pow256(n) as nat);
}

} // verus!
