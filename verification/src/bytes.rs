//! Big-endian integers and byte-vector helpers.
use vstd::prelude::*;

verus! {

/// The two bytes of `x`, most significant first.
pub open spec fn u16_be(x: u16) -> Seq<u8> {
    seq![(x / 256) as u8, (x % 256) as u8]
}

/// The four bytes of `x`, most significant first.
pub open spec fn u32_be(x: u32) -> Seq<u8> {
    seq![
        (x / 16777216) as u8,
        ((x / 65536) % 256) as u8,
        ((x / 256) % 256) as u8,
        (x % 256) as u8,
    ]
}

/// The eight bytes of `x`, most significant first.
pub open spec fn u64_be(x: u64) -> Seq<u8> {
    u32_be((x / 4294967296) as u32) + u32_be((x % 4294967296) as u32)
}

/// The number that the first two bytes of `s` spell, most significant first.
pub open spec fn be_u16(s: Seq<u8>) -> u16
    recommends
        s.len() >= 2,
{
    (s[0] as int * 256 + s[1] as int) as u16
}

/// The number that the first four bytes of `s` spell, most significant first.
pub open spec fn be_u32(s: Seq<u8>) -> u32
    recommends
        s.len() >= 4,
{
    (s[0] as int * 16777216 + s[1] as int * 65536 + s[2] as int * 256 + s[3] as int) as u32
}

/// The number that the first eight bytes of `s` spell, most significant first.
pub open spec fn be_u64(s: Seq<u8>) -> u64
    recommends
        s.len() >= 8,
{
    (be_u32(s) as int * 4294967296 + be_u32(s.skip(4)) as int) as u64
}

/// Decoding undoes encoding, for each width.
pub proof fn lemma_be_round_trip(a: u16, b: u32, c: u64)
    ensures
        u16_be(a).len() == 2,
        u32_be(b).len() == 4,
        u64_be(c).len() == 8,
        be_u16(u16_be(a)) == a,
        be_u32(u32_be(b)) == b,
        be_u64(u64_be(c)) == c,
{
    let hi = (c / 4294967296) as u32;
    let lo = (c % 4294967296) as u32;
    assert(u64_be(c).skip(4) =~= u32_be(lo));
    assert(be_u32(u64_be(c)) == hi);
    assert(be_u32(u32_be(lo)) == lo);
}

/// Encoding undoes decoding of four bytes.
pub proof fn lemma_be_u32_encode_decoded(s: Seq<u8>)
    requires
        s.len() == 4,
    ensures
        u32_be(be_u32(s)) == s,
{
    let a = s[0] as int;
    let b = s[1] as int;
    let c = s[2] as int;
    let d = s[3] as int;
    let x = a * 16777216 + b * 65536 + c * 256 + d;
    assert(x / 16777216 == a);
    assert((x / 65536) % 256 == b);
    assert((x / 256) % 256 == c);
    assert(x % 256 == d);
    assert(u32_be(be_u32(s)) =~= s);
}

/// Encoding undoes decoding of eight bytes.
pub proof fn lemma_be_u64_encode_decoded(s: Seq<u8>)
    requires
        s.len() == 8,
    ensures
        u64_be(be_u64(s)) == s,
{
    let hi = s.subrange(0, 4);
    let lo = s.skip(4);
    assert(be_u32(s) == be_u32(hi));
    lemma_be_u32_encode_decoded(hi);
    lemma_be_u32_encode_decoded(lo);
    let h = be_u32(hi) as int;
    let l = be_u32(lo) as int;
    let x = h * 4294967296 + l;
    assert(x / 4294967296 == h);
    assert(x % 4294967296 == l);
    assert(u64_be(be_u64(s)) =~= s);
}

/// Reads the big-endian `u16` at `pos`.
pub fn read_u16(data: &[u8], pos: usize) -> (r: u16)
    requires
        pos + 2 <= data@.len(),
    ensures
        r == be_u16(data@.skip(pos as int)),
{
    let b0: u16 = data[pos] as u16;
    let b1: u16 = data[pos + 1] as u16;
    b0 * 256 + b1
}

/// Reads the big-endian `u32` at `pos`.
pub fn read_u32(data: &[u8], pos: usize) -> (r: u32)
    requires
        pos + 4 <= data@.len(),
    ensures
        r == be_u32(data@.skip(pos as int)),
{
    let b0: u32 = data[pos] as u32;
    let b1: u32 = data[pos + 1] as u32;
    let b2: u32 = data[pos + 2] as u32;
    let b3: u32 = data[pos + 3] as u32;
    b0 * 16777216 + b1 * 65536 + b2 * 256 + b3
}

/// Reads the big-endian `u64` at `pos`.
pub fn read_u64(data: &[u8], pos: usize) -> (r: u64)
    requires
        pos + 8 <= data@.len(),
    ensures
        r == be_u64(data@.skip(pos as int)),
{
    let len: usize = data.len();
    let hi: u64 = read_u32(data, pos) as u64;
    let lo: u64 = read_u32(data, pos + 4) as u64;
    proof {
        assert(data@.skip(pos as int).skip(4) =~= data@.skip(pos as int + 4));
    }
    hi * 4294967296 + lo
}

/// Appends the big-endian bytes of `x`.
pub fn push_u16(out: &mut Vec<u8>, x: u16)
    ensures
        final(out)@ == old(out)@ + u16_be(x),
{
    out.push((x / 256) as u8);
    out.push((x % 256) as u8);
    proof {
        assert(out@ =~= old(out)@ + u16_be(x));
    }
}

/// Appends the big-endian bytes of `x`.
pub fn push_u32(out: &mut Vec<u8>, x: u32)
    ensures
        final(out)@ == old(out)@ + u32_be(x),
{
    out.push((x / 16777216) as u8);
    out.push(((x / 65536) % 256) as u8);
    out.push(((x / 256) % 256) as u8);
    out.push((x % 256) as u8);
    proof {
        assert(out@ =~= old(out)@ + u32_be(x));
    }
}

/// Appends the big-endian bytes of `x`.
pub fn push_u64(out: &mut Vec<u8>, x: u64)
    ensures
        final(out)@ == old(out)@ + u64_be(x),
{
    push_u32(out, (x / 4294967296) as u32);
    push_u32(out, (x % 4294967296) as u32);
    proof {
        assert(out@ =~= old(out)@ + u64_be(x));
    }
}

/// Appends a copy of `data`.
pub fn push_all(out: &mut Vec<u8>, data: &[u8])
    ensures
        final(out)@ == old(out)@ + data@,
{
    out.extend_from_slice(data);
    proof {
        assert(out@ =~= old(out)@ + data@);
    }
}

/// A fresh vector holding `data[from..to]`.
pub fn copy_range(data: &[u8], from: usize, to: usize) -> (r: Vec<u8>)
    requires
        from <= to <= data@.len(),
    ensures
        r@ == data@.subrange(from as int, to as int),
{
    let mut out: Vec<u8> = Vec::new();
    out.extend_from_slice(vstd::slice::slice_subrange(data, from, to));
    proof {
        assert(out@ =~= data@.subrange(from as int, to as int));
    }
    out
}

} // verus!
