//! Big-endian fields and byte strings.

use vstd::prelude::*;

verus! {

/// The 16-bit big-endian field at `i`.
pub open spec fn be16(s: Seq<u8>, i: int) -> int {
    256 * s[i] + s[i + 1]
}

/// The 32-bit big-endian field at `i`.
pub open spec fn be32(s: Seq<u8>, i: int) -> int {
    0x10000 * be16(s, i) + be16(s, i + 2)
}

/// The two bytes of a 16-bit field.
pub open spec fn be16_bytes(v: int) -> Seq<u8> {
    seq![(v / 256) as u8, (v % 256) as u8]
}

/// The four bytes of a 32-bit field.
pub open spec fn be32_bytes(v: int) -> Seq<u8> {
    seq![
        (v / 0x1000000) as u8,
        (v / 0x10000 % 256) as u8,
        (v / 256 % 256) as u8,
        (v % 256) as u8,
    ]
}

/// Read the 16-bit field at `i`.
pub fn read_be16(s: &[u8], i: usize) -> (v: u16)
    requires
        i + 2 <= s@.len(),
    ensures
        v == be16(s@, i as int),
{
    s[i] as u16 * 256 + s[i + 1] as u16
}

/// Read the 32-bit field at `i`.
pub fn read_be32(s: &[u8], i: usize) -> (v: u32)
    requires
        i + 4 <= s@.len(),
    ensures
        v == be32(s@, i as int),
{
    assert(i + 4 <= s.len());
    read_be16(s, i) as u32 * 0x10000 + read_be16(s, i + 2) as u32
}

/// Append a 16-bit field.
pub fn push_be16(out: &mut Vec<u8>, v: u16)
    ensures
        final(out)@ == old(out)@ + be16_bytes(v as int),
{
    let hi: u8 = (v / 256) as u8;
    let lo: u8 = (v % 256) as u8;
    out.push(hi);
    out.push(lo);
    assert(out@ =~= old(out)@ + be16_bytes(v as int));
}

/// Append a 32-bit field.
pub fn push_be32(out: &mut Vec<u8>, v: u32)
    ensures
        final(out)@ == old(out)@ + be32_bytes(v as int),
{
    let b3: u8 = (v / 0x1000000) as u8;
    let b2: u8 = (v / 0x10000 % 256) as u8;
    let b1: u8 = (v / 256 % 256) as u8;
    let b0: u8 = (v % 256) as u8;
    out.push(b3);
    out.push(b2);
    out.push(b1);
    out.push(b0);
    assert(out@ =~= old(out)@ + be32_bytes(v as int));
}

/// Append a byte string.
pub fn append_bytes(out: &mut Vec<u8>, s: &[u8])
    ensures
        final(out)@ == old(out)@ + s@,
{
    let mut i: usize = 0;
    while i < s.len()
        invariant
            i <= s@.len(),
            out@ == old(out)@ + s@.take(i as int),
        decreases s@.len() - i,
    {
        out.push(s[i]);
        assert(s@.take(i as int).push(s@[i as int]) =~= s@.take(i + 1));
        assert(out@ =~= old(out)@ + s@.take(i + 1));
        i = i + 1;
    }
    assert(s@.take(s@.len() as int) =~= s@);
}

/// A copy of a byte string.
pub fn copy_bytes(s: &[u8]) -> (v: Vec<u8>)
    ensures
        v@ == s@,
{
    let mut v: Vec<u8> = Vec::new();
    append_bytes(&mut v, s);
    assert(v@ =~= s@);
    v
}

/// The bytes of `s` from `from` to `to`.
pub fn slice_of(s: &[u8], from: usize, to: usize) -> (r: &[u8])
    requires
        from <= to <= s@.len(),
    ensures
        r@ == s@.subrange(from as int, to as int),
{
    vstd::slice::slice_subrange(s, from, to)
}

/// A 16-bit field reads back what was written.
pub proof fn lemma_be16_reads_back(s: Seq<u8>, i: int, v: int)
    requires
        0 <= v < 0x10000,
        0 <= i,
        i + 2 <= s.len(),
        s.subrange(i, i + 2) == be16_bytes(v),
    ensures
        be16(s, i) == v,
{
    let f = s.subrange(i, i + 2);
    assert(s[i] == f[0] && s[i + 1] == f[1]);
}

/// A 32-bit field reads back what was written.
pub proof fn lemma_be32_reads_back(s: Seq<u8>, i: int, v: int)
    requires
        0 <= v < 0x1_0000_0000,
        0 <= i,
        i + 4 <= s.len(),
        s.subrange(i, i + 4) == be32_bytes(v),
    ensures
        be32(s, i) == v,
{
    let f = s.subrange(i, i + 4);
    assert(s[i] == f[0] && s[i + 1] == f[1] && s[i + 2] == f[2] && s[i + 3] == f[3]);
}

} // verus!
