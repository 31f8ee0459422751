//! The wire form of the account records: little-endian words and raw
//! identifier bytes, with proved round-trip behaviour.

use vstd::bytes::{
    lemma_auto_spec_u64_to_from_le_bytes, spec_u64_from_le_bytes, spec_u64_to_le_bytes,
    u64_from_le_bytes, u64_to_le_bytes,
};
use vstd::prelude::*;

use crate::name::Name;

verus! {

/// The byte encoding of an identifier: its eight words, little-endian.
pub open spec fn name_bytes(n: Name) -> Seq<u8> {
    spec_u64_to_le_bytes(n.0) + spec_u64_to_le_bytes(n.1) + spec_u64_to_le_bytes(n.2)
        + spec_u64_to_le_bytes(n.3) + spec_u64_to_le_bytes(n.4) + spec_u64_to_le_bytes(n.5)
        + spec_u64_to_le_bytes(n.6) + spec_u64_to_le_bytes(n.7)
}

/// The identifier read back from 64 bytes.
pub open spec fn name_from_bytes(b: Seq<u8>) -> Name
    recommends
        b.len() == 64,
{
    Name(
        spec_u64_from_le_bytes(b.subrange(0, 8)),
        spec_u64_from_le_bytes(b.subrange(8, 16)),
        spec_u64_from_le_bytes(b.subrange(16, 24)),
        spec_u64_from_le_bytes(b.subrange(24, 32)),
        spec_u64_from_le_bytes(b.subrange(32, 40)),
        spec_u64_from_le_bytes(b.subrange(40, 48)),
        spec_u64_from_le_bytes(b.subrange(48, 56)),
        spec_u64_from_le_bytes(b.subrange(56, 64)),
    )
}

pub proof fn lemma_name_bytes_len(n: Name)
    ensures
        name_bytes(n).len() == 64,
{
    lemma_auto_spec_u64_to_from_le_bytes();
}

/// Encoding an identifier and reading it back yields the identifier.
pub proof fn lemma_name_round_trip(n: Name)
    ensures
        name_bytes(n).len() == 64,
        name_from_bytes(name_bytes(n)) == n,
{
    lemma_auto_spec_u64_to_from_le_bytes();
    let b = name_bytes(n);
    assert(b.subrange(0, 8) =~= spec_u64_to_le_bytes(n.0));
    assert(b.subrange(8, 16) =~= spec_u64_to_le_bytes(n.1));
    assert(b.subrange(16, 24) =~= spec_u64_to_le_bytes(n.2));
    assert(b.subrange(24, 32) =~= spec_u64_to_le_bytes(n.3));
    assert(b.subrange(32, 40) =~= spec_u64_to_le_bytes(n.4));
    assert(b.subrange(40, 48) =~= spec_u64_to_le_bytes(n.5));
    assert(b.subrange(48, 56) =~= spec_u64_to_le_bytes(n.6));
    assert(b.subrange(56, 64) =~= spec_u64_to_le_bytes(n.7));
}

/// Appends the little-endian bytes of `x`.
pub fn push_u64_le(out: &mut Vec<u8>, x: u64)
    ensures
        final(out)@ == old(out)@ + spec_u64_to_le_bytes(x),
{
    let mut bs = u64_to_le_bytes(x);
    out.append(&mut bs);
}

/// Reads the eight bytes starting at `off` as a little-endian word.
pub fn read_u64_le(b: &Vec<u8>, off: usize) -> (x: u64)
    requires
        off + 8 <= b@.len(),
    ensures
        x == spec_u64_from_le_bytes(b@.subrange(off as int, off as int + 8)),
{
    let blen = b.len();
    let mut tmp: Vec<u8> = Vec::new();
    let mut k: usize = 0;
    while k < 8
        invariant
            0 <= k <= 8,
            off + 8 <= b@.len(),
            blen == b@.len(),
            tmp@ == b@.subrange(off as int, off as int + k),
        decreases 8 - k,
    {
        tmp.push(b[off + k]);
        assert(tmp@ =~= b@.subrange(off as int, off as int + k + 1));
        k += 1;
    }
    u64_from_le_bytes(tmp.as_slice())
}

/// Appends the 64 identifier bytes of `n`.
pub fn push_name(out: &mut Vec<u8>, n: &Name)
    ensures
        final(out)@ == old(out)@ + name_bytes(*n),
{
    push_u64_le(out, n.0);
    push_u64_le(out, n.1);
    push_u64_le(out, n.2);
    push_u64_le(out, n.3);
    push_u64_le(out, n.4);
    push_u64_le(out, n.5);
    push_u64_le(out, n.6);
    push_u64_le(out, n.7);
    assert(out@ =~= old(out)@ + name_bytes(*n));
}

/// Reads the identifier held in the 64 bytes starting at `off`.
pub fn read_name(b: &Vec<u8>, off: usize) -> (n: Name)
    requires
        off + 64 <= b@.len(),
    ensures
        n == name_from_bytes(b@.subrange(off as int, off as int + 64)),
{
    let blen = b.len();
    let n = Name(
        read_u64_le(b, off),
        read_u64_le(b, off + 8),
        read_u64_le(b, off + 16),
        read_u64_le(b, off + 24),
        read_u64_le(b, off + 32),
        read_u64_le(b, off + 40),
        read_u64_le(b, off + 48),
        read_u64_le(b, off + 56),
    );
    proof {
        let s = b@.subrange(off as int, off as int + 64);
        assert(b@.subrange(off as int, off as int + 8) =~= s.subrange(0, 8));
        assert(b@.subrange(off as int + 8, off as int + 16) =~= s.subrange(8, 16));
        assert(b@.subrange(off as int + 16, off as int + 24) =~= s.subrange(16, 24));
        assert(b@.subrange(off as int + 24, off as int + 32) =~= s.subrange(24, 32));
        assert(b@.subrange(off as int + 32, off as int + 40) =~= s.subrange(32, 40));
        assert(b@.subrange(off as int + 40, off as int + 48) =~= s.subrange(40, 48));
        assert(b@.subrange(off as int + 48, off as int + 56) =~= s.subrange(48, 56));
        assert(b@.subrange(off as int + 56, off as int + 64) =~= s.subrange(56, 64));
    }
    n
}

/// Appends a copy of `src`.
pub fn push_bytes(out: &mut Vec<u8>, src: &Vec<u8>)
    ensures
        final(out)@ == old(out)@ + src@,
{
    let mut k: usize = 0;
    while k < src.len()
        invariant
            0 <= k <= src@.len(),
            out@ == old(out)@ + src@.subrange(0, k as int),
        decreases src@.len() - k,
    {
        out.push(src[k]);
        assert(out@ =~= old(out)@ + src@.subrange(0, k + 1));
        k += 1;
    }
    assert(out@ =~= old(out)@ + src@);
}

/// An exact copy of a byte string.
pub fn copy_bytes(src: &Vec<u8>) -> (r: Vec<u8>)
    ensures
        r@ == src@,
{
    let mut r: Vec<u8> = Vec::new();
    push_bytes(&mut r, src);
    assert(r@ =~= src@);
    r
}

} // verus!
