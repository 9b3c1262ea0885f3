//! A zlib container that holds its data in stored (uncompressed) DEFLATE blocks.
use vstd::prelude::*;
use crate::adler32::{adler32, adler_fold, Adler32, ADLER_MOD};
use crate::bytes::{
    be32, be32_value, le16, le16_value, lemma_be32_value, lemma_le16_value, push_be32, push_le16,
    push_range,
};

verus! {

/// The most data bytes put in one stored block.
pub const CHUNK_SIZE: usize = 65530;

/// The zlib header: deflate, a 32K window, no preset dictionary, check bits valid.
pub open spec fn zlib_header() -> Seq<u8> {
    seq![0x78u8, 0x01u8]
}

/// The five bytes that open a stored block of `len` bytes.
pub open spec fn block_header(last: bool, len: u16) -> Seq<u8> {
    seq![if last { 1u8 } else { 0u8 }] + le16(len) + le16(!len)
}

/// `s` split into stored blocks of `CHUNK_SIZE` bytes, the last one shorter
/// (or empty, when `s` is) and flagged final.
pub open spec fn stored_blocks(s: Seq<u8>) -> Seq<u8>
    decreases s.len(),
{
    if s.len() <= CHUNK_SIZE {
        block_header(true, s.len() as u16) + s
    } else {
        block_header(false, CHUNK_SIZE as u16) + s.take(CHUNK_SIZE as int) + stored_blocks(
            s.skip(CHUNK_SIZE as int),
        )
    }
}

/// The zlib stream that stores `s`: header, stored blocks, Adler-32 of `s`.
pub open spec fn zlib_stored(s: Seq<u8>) -> Seq<u8> {
    zlib_header() + stored_blocks(s) + be32(adler32(s) as u32)
}

/// How many stored blocks hold `n` bytes.
pub open spec fn block_count(n: nat) -> nat {
    if n == 0 {
        1
    } else {
        ((n + CHUNK_SIZE - 1) / CHUNK_SIZE as int) as nat
    }
}

/// The length of the stored zlib stream of `n` bytes.
pub open spec fn zlib_len(n: nat) -> nat {
    n + 5 * block_count(n) + 6
}

proof fn lemma_stored_blocks_len(s: Seq<u8>)
    ensures
        stored_blocks(s).len() == s.len() + 5 * block_count(s.len()),
    decreases s.len(),
{
    if s.len() > CHUNK_SIZE {
        let n = s.len();
        lemma_stored_blocks_len(s.skip(CHUNK_SIZE as int));
        assert((n + 65529) / 65530 == 1 + (n - 65530 + 65529) / 65530) by (nonlinear_arith)
            requires
                n > 65530,
        ;
    }
}

/// The stored zlib stream of `s` is `zlib_len(s.len())` bytes long.
pub proof fn lemma_zlib_stored_len(s: Seq<u8>)
    ensures
        zlib_stored(s).len() == zlib_len(s.len()),
{
    lemma_stored_blocks_len(s);
}

/// Wraps `data` in a zlib stream of stored DEFLATE blocks.
pub fn fake_compress(data: &[u8]) -> (raw_data: Vec<u8>)
    ensures
        raw_data@ == zlib_stored(data@),
{
    let mut raw_data: Vec<u8> = Vec::new();
    raw_data.push(0x78);
    raw_data.push(0x01);
    assert(raw_data@ =~= zlib_header());
    let len = data.len();
    let mut pos: usize = 0;
    assert(data@.subrange(0, len as int) =~= data@);
    while len - pos > CHUNK_SIZE
        invariant
            pos <= len == data@.len(),
            raw_data@ + stored_blocks(data@.subrange(pos as int, len as int)) == zlib_header()
                + stored_blocks(data@),
        decreases len - pos,
    {
        let ghost before = raw_data@;
        let ghost rest = data@.subrange(pos as int, len as int);
        raw_data.push(0);
        push_le16(&mut raw_data, CHUNK_SIZE as u16);
        push_le16(&mut raw_data, !(CHUNK_SIZE as u16));
        push_range(&mut raw_data, data, pos, pos + CHUNK_SIZE);
        proof {
            let hdr = block_header(false, CHUNK_SIZE as u16);
            let piece = data@.subrange(pos as int, pos + CHUNK_SIZE);
            assert(rest.take(CHUNK_SIZE as int) =~= piece);
            assert(rest.skip(CHUNK_SIZE as int) =~= data@.subrange(pos + CHUNK_SIZE, len as int));
            assert(raw_data@ =~= before + hdr + piece);
            assert(stored_blocks(rest) == hdr + piece + stored_blocks(
                data@.subrange(pos + CHUNK_SIZE, len as int),
            ));
            assert(before + stored_blocks(rest) =~= raw_data@ + stored_blocks(
                data@.subrange(pos + CHUNK_SIZE, len as int),
            ));
        }
        pos = pos + CHUNK_SIZE;
    }
    let ghost before = raw_data@;
    let last_len: u16 = (len - pos) as u16;
    raw_data.push(1);
    push_le16(&mut raw_data, last_len);
    push_le16(&mut raw_data, !last_len);
    push_range(&mut raw_data, data, pos, len);
    assert(raw_data@ =~= before + stored_blocks(data@.subrange(pos as int, len as int)));
    push_be32(&mut raw_data, Adler32::from(data).fin());
    raw_data
}

/// The same stream as `fake_compress`.
pub fn compress(data: &[u8]) -> (raw_data: Vec<u8>)
    ensures
        raw_data@ == zlib_stored(data@),
{
    fake_compress(data)
}

/// Decodes a run of stored DEFLATE blocks at the start of `b`, up to and
/// including the one flagged final: the data they hold and the bytes after them.
/// `None` where a block is not stored, its length check fails or it is cut short.
pub open spec fn inflate_stored(b: Seq<u8>) -> Option<(Seq<u8>, Seq<u8>)>
    decreases b.len(),
{
    if b.len() < 5 {
        None
    } else {
        let head = b[0];
        let len = le16_value(b.subrange(1, 3));
        let nlen = le16_value(b.subrange(3, 5));
        if (head / 2) % 4 != 0 || len + nlen != 0xFFFF || b.len() < 5 + len {
            None
        } else {
            let data = b.subrange(5, 5 + len);
            let rest = b.subrange(5 + len, b.len() as int);
            if head % 2 == 1 {
                Some((data, rest))
            } else {
                match inflate_stored(rest) {
                    Some((more, after)) => Some((data + more, after)),
                    None => None,
                }
            }
        }
    }
}

/// Decodes a zlib stream whose DEFLATE data is made of stored blocks: checks the
/// header (method 8, window at most 32K, check bits, no preset dictionary), the
/// blocks, and the Adler-32 trailer that ends the stream.
#[verifier::opaque]
pub open spec fn inflate_zlib(z: Seq<u8>) -> Option<Seq<u8>> {
    if z.len() < 2 {
        None
    } else {
        let cmf = z[0];
        let flg = z[1];
        if cmf % 16 != 8 || cmf / 16 > 7 || (cmf * 256 + flg) % 31 != 0 || (flg / 32) % 2 != 0 {
            None
        } else {
            match inflate_stored(z.subrange(2, z.len() as int)) {
                Some((data, trailer)) => if trailer.len() == 4 && be32_value(trailer) == adler32(
                    data,
                ) {
                    Some(data)
                } else {
                    None
                },
                None => None,
            }
        }
    }
}

proof fn lemma_block_header(last: bool, len: u16)
    ensures
        block_header(last, len).len() == 5,
        block_header(last, len)[0] == (if last { 1u8 } else { 0u8 }),
        le16_value(block_header(last, len).subrange(1, 3)) == len,
        le16_value(block_header(last, len).subrange(3, 5)) == 0xFFFF - len,
{
    let h = block_header(last, len);
    lemma_le16_value(len);
    lemma_le16_value(!len);
    assert(h.subrange(1, 3) =~= le16(len));
    assert(h.subrange(3, 5) =~= le16(!len));
    assert(!len == 0xFFFF - len) by (bit_vector);
}

/// Decoding the stored blocks of `s`, followed by anything, gives back `s`
/// and what followed.
pub proof fn lemma_inflate_stored_blocks(s: Seq<u8>, t: Seq<u8>)
    ensures
        inflate_stored(stored_blocks(s) + t) == Some((s, t)),
    decreases s.len(),
{
    let b = stored_blocks(s) + t;
    if s.len() <= CHUNK_SIZE {
        let h = block_header(true, s.len() as u16);
        lemma_block_header(true, s.len() as u16);
        assert(b.subrange(1, 3) =~= h.subrange(1, 3));
        assert(b.subrange(3, 5) =~= h.subrange(3, 5));
        assert(b.subrange(5, 5 + s.len() as int) =~= s);
        assert(b.subrange(5 + s.len() as int, b.len() as int) =~= t);
    } else {
        let h = block_header(false, CHUNK_SIZE as u16);
        let piece = s.take(CHUNK_SIZE as int);
        let tail = s.skip(CHUNK_SIZE as int);
        lemma_block_header(false, CHUNK_SIZE as u16);
        assert(b =~= h + piece + (stored_blocks(tail) + t));
        assert(b.subrange(1, 3) =~= h.subrange(1, 3));
        assert(b.subrange(3, 5) =~= h.subrange(3, 5));
        assert(b.subrange(5, 5 + CHUNK_SIZE) =~= piece);
        assert(b.subrange(5 + CHUNK_SIZE, b.len() as int) =~= stored_blocks(tail) + t);
        lemma_inflate_stored_blocks(tail, t);
        assert(piece + tail =~= s);
    }
}

/// The sums stay reduced.
pub proof fn lemma_adler_fold_bounds(a: nat, b: nat, bytes: Seq<u8>)
    requires
        a < ADLER_MOD,
        b < ADLER_MOD,
    ensures
        adler_fold(a, b, bytes).0 < ADLER_MOD,
        adler_fold(a, b, bytes).1 < ADLER_MOD,
    decreases bytes.len(),
{
    if bytes.len() > 0 {
        lemma_adler_fold_bounds(a, b, bytes.drop_last());
    }
}

/// Inflating the stored zlib stream of any byte sequence gives back that sequence.
pub proof fn lemma_stored_zlib_round_trip(s: Seq<u8>)
    ensures
        inflate_zlib(zlib_stored(s)) == Some(s),
{
    reveal(inflate_zlib);
    let z = zlib_stored(s);
    let check = adler32(s);
    lemma_adler_fold_bounds(1, 0, s);
    assert(check < 0x1_0000_0000);
    lemma_be32_value(check as u32);
    assert(z.subrange(2, z.len() as int) =~= stored_blocks(s) + be32(check as u32));
    lemma_inflate_stored_blocks(s, be32(check as u32));
}

} // verus!
