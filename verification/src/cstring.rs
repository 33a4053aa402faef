//! The memory routines that compiled code falls back on: comparing, filling
//! and copying bytes.

use vstd::prelude::*;

verus! {

/// The position of the first of the first `len` bytes in which `a` and `b`
/// differ, or `len` where they do not.
pub open spec fn first_difference(a: Seq<u8>, b: Seq<u8>, len: int) -> int
    decreases len,
{
    if len <= 0 {
        0
    } else if first_difference(a, b, len - 1) < len - 1 {
        first_difference(a, b, len - 1)
    } else if a[len - 1] != b[len - 1] {
        len - 1
    } else {
        len
    }
}

/// The position of the first of the first `len` bytes in which `a` and `b`
/// differ, or `len` where they do not.
pub open spec fn first_mismatch(a: Seq<u8>, b: Seq<u8>, len: usize) -> int {
    first_difference(a, b, len as int)
}

/// What comparing the first `len` bytes gives: 0 where they are the same,
/// and else the first byte that differs less its counterpart.
pub open spec fn compared(a: Seq<u8>, b: Seq<u8>, len: usize) -> int {
    if first_mismatch(a, b, len) == len {
        0
    } else {
        a[first_mismatch(a, b, len)] - b[first_mismatch(a, b, len)]
    }
}

/// The difference of two bytes.
pub fn byte_difference(x: u8, y: u8) -> (d: i32)
    ensures
        d == x - y,
{
    x as i32 - y as i32
}

/// Compares the first `len` bytes of both: 0 where they are the same, and
/// else the first byte that differs less its counterpart.
pub fn memcmp(s1: &[u8], s2: &[u8], len: usize) -> (r: i32)
    requires
        len <= s1@.len(),
        len <= s2@.len(),
    ensures
        r == compared(s1@, s2@, len),
{
    let mut i: usize = 0;
    while i < len
        invariant
            i <= len,
            len <= s1@.len(),
            len <= s2@.len(),
            first_mismatch(s1@, s2@, i) == i,
        decreases len - i,
    {
        if s1[i] != s2[i] {
            proof {
                lemma_difference_stays(s1@, s2@, i, len);
            }
            return byte_difference(s1[i], s2[i]);
        }
        i += 1;
    }
    0
}

/// A difference among the first bytes is the first difference however many
/// more bytes are compared.
pub proof fn lemma_difference_stays(a: Seq<u8>, b: Seq<u8>, i: usize, len: usize)
    requires
        i < len,
        first_mismatch(a, b, i) == i,
        a[i as int] != b[i as int],
    ensures
        first_mismatch(a, b, len) == i,
    decreases len,
{
    if len > i + 1 {
        lemma_difference_stays(a, b, i, (len - 1) as usize);
    }
}

/// The same as `memcmp`.
pub fn bcmp(s1: &[u8], s2: &[u8], len: usize) -> (r: i32)
    requires
        len <= s1@.len(),
        len <= s2@.len(),
    ensures
        r == compared(s1@, s2@, len),
{
    memcmp(s1, s2, len)
}

/// Sets the first `n` bytes to `c`.
pub fn memset(s: &mut [u8], c: u8, n: usize)
    requires
        n <= old(s)@.len(),
    ensures
        final(s)@.len() == old(s)@.len(),
        forall|i: int| 0 <= i < n ==> final(s)@[i] == c,
        forall|i: int| n <= i < old(s)@.len() ==> final(s)@[i] == old(s)@[i],
{
    let mut i: usize = 0;
    while i < n
        invariant
            i <= n <= s@.len(),
            s@.len() == old(s)@.len(),
            forall|j: int| 0 <= j < i ==> s@[j] == c,
            forall|j: int| i <= j < s@.len() ==> s@[j] == old(s)@[j],
        decreases n - i,
    {
        s[i] = c;
        i += 1;
    }
}

/// Copies the first `n` bytes of `src` to `dest`.
pub fn memcpy(dest: &mut [u8], src: &[u8], n: usize)
    requires
        n <= old(dest)@.len(),
        n <= src@.len(),
    ensures
        final(dest)@.len() == old(dest)@.len(),
        forall|i: int| 0 <= i < n ==> final(dest)@[i] == src@[i],
        forall|i: int| n <= i < old(dest)@.len() ==> final(dest)@[i] == old(dest)@[i],
{
    let mut i: usize = 0;
    while i < n
        invariant
            i <= n <= dest@.len(),
            n <= src@.len(),
            dest@.len() == old(dest)@.len(),
            forall|j: int| 0 <= j < i ==> dest@[j] == src@[j],
            forall|j: int| i <= j < dest@.len() ==> dest@[j] == old(dest)@[j],
        decreases n - i,
    {
        dest[i] = src[i];
        i += 1;
    }
}

/// Copies `n` bytes within one buffer from position `src` to position
/// `dest`, which may overlap: afterwards the bytes at `dest` are what the
/// bytes at `src` were. The copy runs upwards where the destination lies
/// below the source or beyond its end, and downwards otherwise.
pub fn memmove(buf: &mut [u8], dest: usize, src: usize, n: usize)
    requires
        dest + n <= old(buf)@.len(),
        src + n <= old(buf)@.len(),
    ensures
        final(buf)@.len() == old(buf)@.len(),
        forall|i: int|
            dest <= i < dest + n ==> (#[trigger] final(buf)@[i]) == old(buf)@[i - dest + src],
        forall|i: int|
            0 <= i < old(buf)@.len() && !(dest <= i < dest + n) ==> final(buf)@[i] == old(buf)@[i],
{
    let len = buf.len();
    if dest < src || dest - src >= n {
        let mut i: usize = 0;
        while i < n
            invariant
                i <= n,
                dest + n <= len,
                src + n <= len,
                len == buf@.len(),
                buf@.len() == old(buf)@.len(),
                dest < src || dest - src >= n,
                forall|j: int|
                    dest <= j < dest + i ==> (#[trigger] buf@[j]) == old(buf)@[j - dest + src],
                forall|j: int|
                    0 <= j < len && !(dest <= j < dest + i) ==> buf@[j] == old(buf)@[j],
            decreases n - i,
        {
            buf[dest + i] = buf[src + i];
            i += 1;
        }
    } else {
        let mut i: usize = n;
        while i > 0
            invariant
                i <= n,
                dest + n <= len,
                src + n <= len,
                len == buf@.len(),
                buf@.len() == old(buf)@.len(),
                src <= dest,
                forall|j: int|
                    dest + i <= j < dest + n ==> (#[trigger] buf@[j]) == old(buf)@[j - dest + src],
                forall|j: int|
                    0 <= j < len && !(dest + i <= j < dest + n) ==> buf@[j] == old(buf)@[j],
            decreases i,
        {
            i -= 1;
            buf[dest + i] = buf[src + i];
        }
    }
}

} // verus!
