//! Globally unique identifiers, which name protocols and tables.

use vstd::prelude::*;
use crate::bytes::{le_value, lemma_le_value_same, lemma_pow256_values, write_le};

verus! {

/// A globally unique identifier.
#[derive(Clone, Copy, Debug)]
pub struct Guid {
    pub data1: u32,
    pub data2: u16,
    pub data3: u16,
    pub data4: [u8; 8],
}

/// Whether two arrays of eight bytes hold the same bytes.
pub fn same_bytes(a: &[u8; 8], b: &[u8; 8]) -> (r: bool)
    ensures
        r == (a@ == b@),
{
    let mut i: usize = 0;
    while i < 8
        invariant
            i <= 8,
            forall|j: int| 0 <= j < i ==> a@[j] == b@[j],
        decreases 8 - i,
    {
        if a[i] != b[i] {
            return false;
        }
        i += 1;
    }
    proof {
        assert(a@ =~= b@);
    }
    true
}

impl Guid {
    /// The identifier with the given parts.
    pub fn new(data1: u32, data2: u16, data3: u16, data4: [u8; 8]) -> (g: Guid)
        ensures
            g.data1 == data1,
            g.data2 == data2,
            g.data3 == data3,
            g.data4 == data4,
    {
        Guid { data1, data2, data3, data4 }
    }

    /// Writes the 16 bytes of the identifier as they lie in memory at `off`:
    /// the first three parts as little-endian numbers, then the eight bytes
    /// of the last part. The other bytes stay as they are.
    pub fn encode(&self, out: &mut [u8], off: usize)
        requires
            off + 16 <= old(out)@.len(),
        ensures
            final(out)@.len() == old(out)@.len(),
            le_value(final(out)@, off as int, 4) == self.data1,
            le_value(final(out)@, off + 4, 2) == self.data2,
            le_value(final(out)@, off + 6, 2) == self.data3,
            final(out)@.subrange(off + 8, off + 16) == self.data4@,
            forall|i: int|
                0 <= i < old(out)@.len() && !(off <= i < off + 16) ==> final(out)@[i] == old(
                    out,
                )@[i],
    {
        let len = out.len();
        proof {
            lemma_pow256_values();
        }
        write_le(out, off, 4, self.data1 as u64);
        let ghost s1 = out@;
        write_le(out, off + 4, 2, self.data2 as u64);
        let ghost s2 = out@;
        write_le(out, off + 6, 2, self.data3 as u64);
        let ghost s3 = out@;
        let mut i: usize = 0;
        while i < 8
            invariant
                i <= 8,
                off + 16 <= out@.len(),
                out@.len() == len,
                out@.len() == old(out)@.len(),
                forall|j: int| 0 <= j < i ==> out@[off + 8 + j] == self.data4@[j],
                forall|j: int| 0 <= j < out@.len() && !(off + 8 <= j < off + 8 + i) ==> out@[j]
                    == s3[j],
            decreases 8 - i,
        {
            out[off + 8 + i] = self.data4[i];
            i += 1;
        }
        proof {
            lemma_le_value_same(s1, out@, off as int, 4);
            lemma_le_value_same(s2, out@, off + 4, 2);
            lemma_le_value_same(s3, out@, off + 6, 2);
            assert(out@.subrange(off + 8, off + 16) =~= self.data4@);
        }
    }

    /// Whether the two identifiers are the same in every part.
    pub open spec fn same(&self, other: &Guid) -> bool {
        &&& self.data1 == other.data1
        &&& self.data2 == other.data2
        &&& self.data3 == other.data3
        &&& self.data4@ == other.data4@
    }
}

impl PartialEq for Guid {
    fn eq(&self, other: &Guid) -> (r: bool) {
        self.data1 == other.data1 && self.data2 == other.data2 && self.data3 == other.data3
            && same_bytes(&self.data4, &other.data4)
    }
}

impl vstd::std_specs::cmp::PartialEqSpecImpl for Guid {
    open spec fn obeys_eq_spec() -> bool {
        true
    }

    open spec fn eq_spec(&self, other: &Guid) -> bool {
        self.same(other)
    }
}

impl Eq for Guid {

}

} // verus!
