//! PNG and APNG chunks, and their framing as bytes.
use vstd::prelude::*;
use crate::bytes::{be16, be32, be32_value, lemma_be32_value, push_be16, push_be32, push_range};
use crate::crc32::{crc32, Crc32};
use crate::deflate::{fake_compress, lemma_zlib_stored_len, zlib_len, zlib_stored};
use crate::raster::{scanlines, scanlines_of};

verus! {

/// Why an image could not be encoded.
#[derive(Debug, Clone, Copy, PartialEq, Eq, Structural)]
pub enum EncodeError {
    /// A bit depth and colour type other than 8-bit truecolour with alpha.
    Unsupported,
    /// A pixel buffer whose length is not width times height.
    BufferSize,
    /// Image data too long for the 32-bit length field of a chunk.
    TooLarge,
    /// More frames than the 32-bit frame count and sequence numbers can number.
    TooManyFrames,
}

/// The image header.
pub struct Ihdr {
    pub width: u32,
    pub height: u32,
    pub bit_depth: u8,
    pub colour_type: u8,
    pub compression_method: u8,
    pub filter_method: u8,
    pub interlace_method: u8,
}

/// The image data of the default image; `image_data` holds four bytes per pixel, top row first.
pub struct Idat {
    pub width: u32,
    pub height: u32,
    pub image_data: Vec<u8>,
}

/// The animation control chunk.
pub struct Actl {
    pub num_frames: u32,
    pub num_plays: u32,
}

/// The frame control chunk: geometry, timing, disposal and blending of one frame.
pub struct Fctl {
    pub sequence_number: u32,
    pub width: u32,
    pub height: u32,
    pub x_offset: u32,
    pub y_offset: u32,
    pub delay_num: u16,
    pub delay_den: u16,
    pub dispose_op: u8,
    pub blend_op: u8,
}

/// The image data of a later animation frame; `image_data` as in `Idat`.
pub struct Fdat {
    pub width: u32,
    pub height: u32,
    pub sequence_number: u32,
    pub image_data: Vec<u8>,
}

/// One unit of a PNG file.
pub enum Chunk {
    Sign,
    Ihdr(Ihdr),
    Idat(Idat),
    Iend,
    Actl(Actl),
    Fctl(Fctl),
    Fdat(Fdat),
}

/// The eight bytes that open every PNG file.
pub open spec fn signature() -> Seq<u8> {
    seq![0x89u8, 0x50u8, 0x4Eu8, 0x47u8, 0x0Du8, 0x0Au8, 0x1Au8, 0x0Au8]
}

pub open spec fn ihdr_kind() -> Seq<u8> {
    seq![0x49u8, 0x48u8, 0x44u8, 0x52u8]
}

pub open spec fn idat_kind() -> Seq<u8> {
    seq![0x49u8, 0x44u8, 0x41u8, 0x54u8]
}

pub open spec fn iend_kind() -> Seq<u8> {
    seq![0x49u8, 0x45u8, 0x4Eu8, 0x44u8]
}

pub open spec fn actl_kind() -> Seq<u8> {
    seq![0x61u8, 0x63u8, 0x54u8, 0x4Cu8]
}

pub open spec fn fctl_kind() -> Seq<u8> {
    seq![0x66u8, 0x63u8, 0x54u8, 0x4Cu8]
}

pub open spec fn fdat_kind() -> Seq<u8> {
    seq![0x66u8, 0x64u8, 0x41u8, 0x54u8]
}

/// A chunk as bytes: payload length, type, payload, CRC-32 of type and payload.
pub open spec fn framed(kind: Seq<u8>, payload: Seq<u8>) -> Seq<u8> {
    be32(payload.len() as u32) + kind + payload + be32(crc32(kind + payload))
}

/// The compressed scanlines of an image of `width` by `height` pixels.
pub open spec fn image_stream(width: u32, height: u32, image_data: Seq<u8>) -> Seq<u8> {
    zlib_stored(scanlines(4 * width as nat, height as nat, image_data))
}

/// The length of the scanline stream of an image of `width` by `height` pixels.
pub open spec fn raster_len(width: u32, height: u32) -> nat {
    ((4 * width + 1) * height) as nat
}

pub open spec fn ihdr_payload(h: Ihdr) -> Seq<u8> {
    be32(h.width) + be32(h.height) + seq![
        h.bit_depth,
        h.colour_type,
        h.compression_method,
        h.filter_method,
        h.interlace_method,
    ]
}

pub open spec fn actl_payload(a: Actl) -> Seq<u8> {
    be32(a.num_frames) + be32(a.num_plays)
}

pub open spec fn fctl_payload(f: Fctl) -> Seq<u8> {
    be32(f.sequence_number) + be32(f.width) + be32(f.height) + be32(f.x_offset) + be32(f.y_offset)
        + be16(f.delay_num) + be16(f.delay_den) + seq![f.dispose_op, f.blend_op]
}

impl Chunk {
    /// The data that the chunk carries has the size its dimensions give, and
    /// fits a chunk's length field.
    pub open spec fn wf(&self) -> bool {
        match self {
            Chunk::Idat(d) => d.image_data@.len() == 4 * d.width * d.height && zlib_len(
                raster_len(d.width, d.height),
            ) <= u32::MAX,
            Chunk::Fdat(d) => d.image_data@.len() == 4 * d.width * d.height && zlib_len(
                raster_len(d.width, d.height),
            ) + 4 <= u32::MAX,
            _ => true,
        }
    }

    /// Only 8-bit truecolour with alpha is encoded.
    pub open spec fn supported(&self) -> bool {
        match self {
            Chunk::Ihdr(h) => h.bit_depth == 8 && h.colour_type == 6,
            _ => true,
        }
    }

    /// The bytes of the chunk in a file.
    pub open spec fn spec_bytes(&self) -> Seq<u8> {
        match self {
            Chunk::Sign => signature(),
            Chunk::Ihdr(h) => framed(ihdr_kind(), ihdr_payload(*h)),
            Chunk::Idat(d) => framed(idat_kind(), image_stream(d.width, d.height, d.image_data@)),
            Chunk::Iend => framed(iend_kind(), Seq::empty()),
            Chunk::Actl(a) => framed(actl_kind(), actl_payload(*a)),
            Chunk::Fctl(f) => framed(fctl_kind(), fctl_payload(*f)),
            Chunk::Fdat(d) => framed(
                fdat_kind(),
                be32(d.sequence_number) + image_stream(d.width, d.height, d.image_data@),
            ),
        }
    }

    /// Frames `chunk`, which holds the four type bytes and then the payload.
    pub fn format(chunk: &[u8]) -> (r: Vec<u8>)
        requires
            4 <= chunk@.len() <= u32::MAX + 4,
        ensures
            r@ == framed(chunk@.take(4), chunk@.skip(4)),
    {
        let mut r: Vec<u8> = Vec::new();
        push_be32(&mut r, (chunk.len() - 4) as u32);
        push_range(&mut r, chunk, 0, chunk.len());
        let mut crc = Crc32::from(chunk);
        push_be32(&mut r, crc.fin());
        assert(chunk@.subrange(0, chunk@.len() as int) =~= chunk@);
        assert(chunk@.take(4) + chunk@.skip(4) =~= chunk@);
        r
    }

    /// The bytes of the chunk in a file; `Unsupported` for a header of another
    /// bit depth or colour type.
    pub fn form_chunk(self) -> (r: Result<Vec<u8>, EncodeError>)
        requires
            self.wf(),
        ensures
            self.supported() ==> (r matches Ok(v) && v@ == self.spec_bytes()),
            !self.supported() ==> r == Err::<Vec<u8>, EncodeError>(EncodeError::Unsupported),
    {
        let ghost this = self;
        let mut body: Vec<u8> = Vec::new();
        match self {
            Chunk::Sign => {
                let mut sig: Vec<u8> = Vec::new();
                sig.push(0x89);
                sig.push(0x50);
                sig.push(0x4E);
                sig.push(0x47);
                sig.push(0x0D);
                sig.push(0x0A);
                sig.push(0x1A);
                sig.push(0x0A);
                assert(sig@ =~= signature());
                return Ok(sig);
            },
            Chunk::Ihdr(h) => {
                if h.bit_depth != 8 || h.colour_type != 6 {
                    return Err(EncodeError::Unsupported);
                }
                push_kind(&mut body, 0x49, 0x48, 0x44, 0x52);
                push_be32(&mut body, h.width);
                push_be32(&mut body, h.height);
                body.push(h.bit_depth);
                body.push(h.colour_type);
                body.push(h.compression_method);
                body.push(h.filter_method);
                body.push(h.interlace_method);
                assert(body@ =~= ihdr_kind() + ihdr_payload(h));
            },
            Chunk::Idat(d) => {
                push_kind(&mut body, 0x49, 0x44, 0x41, 0x54);
                let stream = compressed_scanlines(d.width, d.height, &d.image_data);
                push_range(&mut body, &stream, 0, stream.len());
                assert(stream@.subrange(0, stream@.len() as int) =~= stream@);
                assert(body@ =~= idat_kind() + image_stream(d.width, d.height, d.image_data@));
            },
            Chunk::Iend => {
                push_kind(&mut body, 0x49, 0x45, 0x4E, 0x44);
                assert(body@ =~= iend_kind() + Seq::<u8>::empty());
            },
            Chunk::Actl(a) => {
                push_kind(&mut body, 0x61, 0x63, 0x54, 0x4C);
                push_be32(&mut body, a.num_frames);
                push_be32(&mut body, a.num_plays);
                assert(body@ =~= actl_kind() + actl_payload(a));
            },
            Chunk::Fctl(f) => {
                push_kind(&mut body, 0x66, 0x63, 0x54, 0x4C);
                push_be32(&mut body, f.sequence_number);
                push_be32(&mut body, f.width);
                push_be32(&mut body, f.height);
                push_be32(&mut body, f.x_offset);
                push_be32(&mut body, f.y_offset);
                push_be16(&mut body, f.delay_num);
                push_be16(&mut body, f.delay_den);
                body.push(f.dispose_op);
                body.push(f.blend_op);
                assert(body@ =~= fctl_kind() + fctl_payload(f));
            },
            Chunk::Fdat(d) => {
                push_kind(&mut body, 0x66, 0x64, 0x41, 0x54);
                push_be32(&mut body, d.sequence_number);
                let stream = compressed_scanlines(d.width, d.height, &d.image_data);
                push_range(&mut body, &stream, 0, stream.len());
                assert(stream@.subrange(0, stream@.len() as int) =~= stream@);
                assert(body@ =~= fdat_kind() + (be32(d.sequence_number) + image_stream(
                    d.width,
                    d.height,
                    d.image_data@,
                )));
            },
        }
        assert(body@.take(4) + body@.skip(4) =~= body@);
        Ok(Chunk::format(&body))
    }
}

/// The fields of a framed chunk read back from `b`: the length field, the type,
/// the payload and the CRC field. `None` where `b` is not exactly one chunk long.
pub open spec fn parse_chunk(b: Seq<u8>) -> Option<(int, Seq<u8>, Seq<u8>, int)> {
    if b.len() < 12 {
        None
    } else {
        let len = be32_value(b.take(4));
        if b.len() != 12 + len {
            None
        } else {
            Some(
                (
                    len,
                    b.subrange(4, 8),
                    b.subrange(8, 8 + len),
                    be32_value(b.subrange(8 + len, 12 + len)),
                ),
            )
        }
    }
}

/// Reading a framed chunk back gives its length, type and payload, and the
/// CRC field equals the CRC-32 of the type and payload read back.
pub proof fn lemma_chunk_round_trip(kind: Seq<u8>, payload: Seq<u8>)
    requires
        kind.len() == 4,
        payload.len() <= u32::MAX,
    ensures
        parse_chunk(framed(kind, payload)) matches Some((len, k, p, crc)) && len == payload.len()
            && k == kind && p == payload && crc == crc32(k + p),
{
    let b = framed(kind, payload);
    let n = payload.len() as int;
    lemma_be32_value(n as u32);
    lemma_be32_value(crc32(kind + payload));
    assert(b.take(4) =~= be32(n as u32));
    assert(b.subrange(4, 8) =~= kind);
    assert(b.subrange(8, 8 + n) =~= payload);
    assert(b.subrange(8 + n, 12 + n) =~= be32(crc32(kind + payload)));
}

/// Appends the four bytes of a chunk type.
fn push_kind(out: &mut Vec<u8>, a: u8, b: u8, c: u8, d: u8)
    ensures
        final(out)@ == old(out)@ + seq![a, b, c, d],
{
    out.push(a);
    out.push(b);
    out.push(c);
    out.push(d);
    assert(final(out)@ =~= old(out)@ + seq![a, b, c, d]);
}

/// The scanlines of an image, wrapped in a stored zlib stream.
fn compressed_scanlines(width: u32, height: u32, image_data: &Vec<u8>) -> (r: Vec<u8>)
    requires
        image_data@.len() == 4 * width * height,
        zlib_len(raster_len(width, height)) <= u32::MAX,
    ensures
        r@ == image_stream(width, height, image_data@),
        r@.len() == zlib_len(raster_len(width, height)),
{
    let lines = scanlines_of(width, height, image_data.as_slice());
    let r = fake_compress(lines.as_slice());
    proof {
        lemma_zlib_stored_len(lines@);
    }
    r
}

} // verus!
