//! Byte-level encodings of integers and of pixel buffers.
use vstd::prelude::*;

verus! {

/// The four bytes of `v`, most significant first.
pub open spec fn be32(v: u32) -> Seq<u8> {
    seq![(v >> 24) as u8, (v >> 16) as u8, (v >> 8) as u8, v as u8]
}

/// The two bytes of `v`, most significant first.
pub open spec fn be16(v: u16) -> Seq<u8> {
    seq![(v >> 8) as u8, v as u8]
}

/// The two bytes of `v`, least significant first.
pub open spec fn le16(v: u16) -> Seq<u8> {
    seq![v as u8, (v >> 8) as u8]
}

/// The integer that four bytes spell, most significant first.
pub open spec fn be32_value(b: Seq<u8>) -> int {
    b[0] * 0x100_0000 + b[1] * 0x1_0000 + b[2] * 0x100 + b[3]
}

/// The integer that two bytes spell, least significant first.
pub open spec fn le16_value(b: Seq<u8>) -> int {
    b[0] + b[1] * 0x100
}

/// A pixel buffer as bytes: each pixel gives its four channels, most significant first.
pub open spec fn pixel_bytes(pixels: Seq<u32>) -> Seq<u8>
    decreases pixels.len(),
{
    if pixels.len() == 0 {
        Seq::empty()
    } else {
        pixel_bytes(pixels.drop_last()) + be32(pixels.last())
    }
}

/// Each pixel takes four bytes.
pub proof fn lemma_pixel_bytes_len(pixels: Seq<u32>)
    ensures
        pixel_bytes(pixels).len() == 4 * pixels.len(),
    decreases pixels.len(),
{
    if pixels.len() > 0 {
        lemma_pixel_bytes_len(pixels.drop_last());
    }
}

/// The bytes of pixel `i` stand at `4 * i` to `4 * i + 4`.
pub proof fn lemma_pixel_bytes_at(pixels: Seq<u32>, i: int, k: int)
    requires
        0 <= i < pixels.len(),
        0 <= k < 4,
    ensures
        pixel_bytes(pixels)[4 * i + k] == be32(pixels[i])[k],
    decreases pixels.len(),
{
    let init = pixels.drop_last();
    lemma_pixel_bytes_len(init);
    if i < pixels.len() - 1 {
        lemma_pixel_bytes_at(init, i, k);
    }
}

/// Reading back four big-endian bytes gives the integer they encode.
pub proof fn lemma_be32_value(v: u32)
    ensures
        be32(v).len() == 4,
        be32_value(be32(v)) == v,
{
    let b0 = (v >> 24) as u8;
    let b1 = (v >> 16) as u8;
    let b2 = (v >> 8) as u8;
    let b3 = v as u8;
    assert(b0 * 0x100_0000 + b1 * 0x1_0000 + b2 * 0x100 + b3 == v) by (bit_vector)
        requires
            b0 == (v >> 24) as u8,
            b1 == (v >> 16) as u8,
            b2 == (v >> 8) as u8,
            b3 == v as u8,
    ;
}

/// Reading back two little-endian bytes gives the integer they encode.
pub proof fn lemma_le16_value(v: u16)
    ensures
        le16(v).len() == 2,
        le16_value(le16(v)) == v,
{
    let b0 = v as u8;
    let b1 = (v >> 8) as u8;
    assert(b0 + b1 * 0x100 == v) by (bit_vector)
        requires
            b0 == v as u8,
            b1 == (v >> 8) as u8,
    ;
}

/// Appends the four big-endian bytes of `v`.
pub fn push_be32(out: &mut Vec<u8>, v: u32)
    ensures
        final(out)@ == old(out)@ + be32(v),
{
    out.push((v >> 24) as u8);
    out.push((v >> 16) as u8);
    out.push((v >> 8) as u8);
    out.push(v as u8);
    assert(final(out)@ =~= old(out)@ + be32(v));
}

/// Appends the two big-endian bytes of `v`.
pub fn push_be16(out: &mut Vec<u8>, v: u16)
    ensures
        final(out)@ == old(out)@ + be16(v),
{
    out.push((v >> 8) as u8);
    out.push(v as u8);
    assert(final(out)@ =~= old(out)@ + be16(v));
}

/// Appends the two little-endian bytes of `v`.
pub fn push_le16(out: &mut Vec<u8>, v: u16)
    ensures
        final(out)@ == old(out)@ + le16(v),
{
    out.push(v as u8);
    out.push((v >> 8) as u8);
    assert(final(out)@ =~= old(out)@ + le16(v));
}

/// Appends `src[from..to]`.
pub fn push_range(out: &mut Vec<u8>, src: &[u8], from: usize, to: usize)
    requires
        from <= to <= src@.len(),
    ensures
        final(out)@ == old(out)@ + src@.subrange(from as int, to as int),
{
    let mut i: usize = from;
    while i < to
        invariant
            from <= i <= to <= src@.len(),
            out@ == old(out)@ + src@.subrange(from as int, i as int),
        decreases to - i,
    {
        out.push(src[i]);
        assert(src@.subrange(from as int, i + 1) =~= src@.subrange(from as int, i as int).push(
            src@[i as int],
        ));
        i = i + 1;
    }
}

/// Expands each pixel into its four bytes, most significant first.
pub fn u32_to_u8(v: &[u32]) -> (res: Vec<u8>)
    ensures
        res@ == pixel_bytes(v@),
        res@.len() == 4 * v@.len(),
{
    proof {
        lemma_pixel_bytes_len(v@);
    }
    let mut res: Vec<u8> = Vec::new();
    let mut i: usize = 0;
    while i < v.len()
        invariant
            i <= v@.len(),
            res@ == pixel_bytes(v@.subrange(0, i as int)),
        decreases v@.len() - i,
    {
        proof {
            let next = v@.subrange(0, i + 1);
            assert(next.drop_last() =~= v@.subrange(0, i as int));
        }
        push_be32(&mut res, v[i]);
        i = i + 1;
    }
    assert(v@.subrange(0, v@.len() as int) =~= v@);
    res
}

} // verus!
