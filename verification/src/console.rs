//! The serial console: what goes out on the wire for a string.

use vstd::prelude::*;

verus! {

/// The bytes sent for `s`: each line feed is preceded by a carriage return.
pub open spec fn wire_bytes(s: Seq<u8>) -> Seq<u8>
    decreases s.len(),
{
    if s.len() == 0 {
        Seq::<u8>::empty()
    } else if s[s.len() - 1] == 0x0a {
        wire_bytes(s.drop_last()).push(0x0d).push(0x0a)
    } else {
        wire_bytes(s.drop_last()).push(s[s.len() - 1])
    }
}

/// The bytes to send for a string: see `wire_bytes`.
pub fn write_str(s: &[u8]) -> (out: Vec<u8>)
    ensures
        out@ == wire_bytes(s@),
{
    let mut out: Vec<u8> = Vec::new();
    let mut i: usize = 0;
    while i < s.len()
        invariant
            i <= s@.len(),
            out@ == wire_bytes(s@.subrange(0, i as int)),
        decreases s@.len() - i,
    {
        let b = s[i];
        proof {
            let next = s@.subrange(0, i + 1);
            assert(next.drop_last() =~= s@.subrange(0, i as int));
            assert(next[next.len() - 1] == b);
        }
        if b == 0x0a {
            out.push(0x0d);
        }
        out.push(b);
        i += 1;
    }
    proof {
        assert(s@.subrange(0, s@.len() as int) =~= s@);
    }
    out
}

} // verus!
