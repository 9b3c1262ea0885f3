//! Whole PNG and APNG files, assembled in memory.
use vstd::prelude::*;
use crate::bytes::{
    be32, be32_value, lemma_be32_value, lemma_pixel_bytes_at, lemma_pixel_bytes_len, pixel_bytes,
    u32_to_u8,
};
use crate::chunk::{
    actl_kind, actl_payload, fctl_kind, fctl_payload, fdat_kind, framed, idat_kind, iend_kind,
    ihdr_kind, ihdr_payload, image_stream, raster_len, signature, Actl, Chunk, EncodeError, Fctl,
    Fdat, Idat, Ihdr,
};
use crate::deflate::{inflate_zlib, lemma_stored_zlib_round_trip, zlib_len, zlib_stored};
use crate::raster::{lemma_scanlines_at, lemma_scanlines_len, scanlines};

verus! {

/// A chunk before framing: its type and its payload.
pub type Piece = (Seq<u8>, Seq<u8>);

/// The chunks of `pieces`, framed and laid end to end.
pub open spec fn concat_framed(pieces: Seq<Piece>) -> Seq<u8>
    decreases pieces.len(),
{
    if pieces.len() == 0 {
        Seq::empty()
    } else {
        concat_framed(pieces.drop_last()) + framed(pieces.last().0, pieces.last().1)
    }
}

/// The header of an 8-bit truecolour-with-alpha, non-interlaced image.
pub open spec fn rgba_header(width: u32, height: u32) -> Ihdr {
    Ihdr {
        width,
        height,
        bit_depth: 8,
        colour_type: 6,
        compression_method: 0,
        filter_method: 0,
        interlace_method: 0,
    }
}

/// The chunks of a still image of `width` by `height` pixels.
pub open spec fn static_pieces(width: u32, height: u32, pixels: Seq<u32>) -> Seq<Piece> {
    seq![
        (ihdr_kind(), ihdr_payload(rgba_header(width, height))),
        (idat_kind(), image_stream(width, height, pixel_bytes(pixels))),
        (iend_kind(), Seq::empty()),
    ]
}

/// The PNG file of a still image.
pub open spec fn static_png(width: u32, height: u32, pixels: Seq<u32>) -> Seq<u8> {
    signature() + concat_framed(static_pieces(width, height, pixels))
}

/// The sequence number of the frame control chunk of frame `i`.
pub open spec fn fctl_sequence(i: nat) -> nat {
    if i == 0 {
        0
    } else {
        (2 * i - 1) as nat
    }
}

/// The sequence number of the frame data chunk of frame `i`, for `i > 0`.
pub open spec fn fdat_sequence(i: nat) -> nat {
    2 * i
}

/// The frame control of frame `i`: the whole canvas, no delay, no disposal, source blending.
pub open spec fn frame_control(i: nat, width: u32, height: u32) -> Fctl {
    Fctl {
        sequence_number: fctl_sequence(i) as u32,
        width,
        height,
        x_offset: 0,
        y_offset: 0,
        delay_num: 0,
        delay_den: 0,
        dispose_op: 0,
        blend_op: 0,
    }
}

/// The two chunks of frame `i`: its frame control, then its data, in an IDAT
/// chunk for frame 0 and in an fdAT chunk after its sequence number otherwise.
pub open spec fn frame_pieces(i: nat, width: u32, height: u32, pixels: Seq<u32>) -> Seq<Piece> {
    let stream = image_stream(width, height, pixel_bytes(pixels));
    seq![
        (fctl_kind(), fctl_payload(frame_control(i, width, height))),
        if i == 0 {
            (idat_kind(), stream)
        } else {
            (fdat_kind(), be32(fdat_sequence(i) as u32) + stream)
        },
    ]
}

/// The chunks of the first `k` frames.
pub open spec fn frames_pieces(width: u32, height: u32, frames: Seq<Seq<u32>>, k: nat) -> Seq<
    Piece,
>
    decreases k,
{
    if k == 0 {
        Seq::empty()
    } else {
        frames_pieces(width, height, frames, (k - 1) as nat) + frame_pieces(
            (k - 1) as nat,
            width,
            height,
            frames[k - 1],
        )
    }
}

/// The chunks of an animation: header, animation control (looping forever),
/// the frames, end.
pub open spec fn animation_pieces(width: u32, height: u32, frames: Seq<Seq<u32>>) -> Seq<Piece> {
    seq![
        (ihdr_kind(), ihdr_payload(rgba_header(width, height))),
        (actl_kind(), actl_payload(Actl { num_frames: frames.len() as u32, num_plays: 0 })),
    ] + frames_pieces(width, height, frames, frames.len()) + seq![(iend_kind(), Seq::empty())]
}

/// The APNG file of an animation.
pub open spec fn animated_png(width: u32, height: u32, frames: Seq<Seq<u32>>) -> Seq<u8> {
    signature() + concat_framed(animation_pieces(width, height, frames))
}

/// The image data of every frame fits a chunk: the IDAT chunk when there is a
/// frame, the fdAT chunks when there are more.
pub open spec fn frames_fit(width: u32, height: u32, n: nat) -> bool {
    &&& n >= 1 ==> zlib_len(raster_len(width, height)) <= u32::MAX
    &&& n >= 2 ==> zlib_len(raster_len(width, height)) + 4 <= u32::MAX
}

/// The most frames an animation can number.
pub const MAX_FRAMES: usize = 0x8000_0000;

proof fn lemma_concat_push(pieces: Seq<Piece>, a: Piece)
    ensures
        concat_framed(pieces.push(a)) == concat_framed(pieces) + framed(a.0, a.1),
{
    assert(pieces.push(a).drop_last() =~= pieces);
    assert(pieces.push(a).last() == a);
}

proof fn lemma_concat_push2(pieces: Seq<Piece>, a: Piece, b: Piece)
    ensures
        concat_framed(pieces + seq![a, b]) == concat_framed(pieces) + framed(a.0, a.1) + framed(
            b.0,
            b.1,
        ),
{
    assert(pieces + seq![a, b] =~= pieces.push(a).push(b));
    lemma_concat_push(pieces, a);
    lemma_concat_push(pieces.push(a), b);
}

/// Whether the data of an image of `width` by `height` pixels, preceded by
/// `extra` bytes, fits the length field of a chunk.
fn stream_fits(width: u32, height: u32, extra: u64) -> (r: bool)
    requires
        extra <= 4,
    ensures
        r == (zlib_len(raster_len(width, height)) + extra <= u32::MAX),
{
    let row: u64 = 4 * width as u64 + 1;
    match row.checked_mul(height as u64) {
        None => false,
        Some(n) => {
            if n > 0xFFFF_FFFF {
                return false;
            }
            let blocks: u64 = if n == 0 {
                1
            } else {
                (n + 65529) / 65530
            };
            n + 5 * blocks + 6 + extra <= 0xFFFF_FFFF
        },
    }
}

/// Appends the bytes of `c`, which is well formed and supported.
fn push_chunk(out: &mut Vec<u8>, c: Chunk)
    requires
        c.wf(),
        c.supported(),
    ensures
        final(out)@ == old(out)@ + c.spec_bytes(),
{
    match c.form_chunk() {
        Ok(mut bytes) => out.append(&mut bytes),
        Err(_) => {},
    }
}

/// The PNG file of a still image of `width` by `height` pixels, given top row
/// first; the file stores the rows last row first.
pub fn encode_static(width: u32, height: u32, data: &[u32]) -> (r: Result<Vec<u8>, EncodeError>)
    ensures
        data@.len() != width * height ==> r == Err::<Vec<u8>, EncodeError>(EncodeError::BufferSize),
        data@.len() == width * height && zlib_len(raster_len(width, height)) > u32::MAX ==> r
            == Err::<Vec<u8>, EncodeError>(EncodeError::TooLarge),
        data@.len() == width * height && zlib_len(raster_len(width, height)) <= u32::MAX ==> (r matches Ok(
            v,
        ) && v@ == static_png(width, height, data@)),
{
    assert(width as u64 * height as u64 <= u64::MAX) by (nonlinear_arith);
    if data.len() as u64 != width as u64 * height as u64 {
        return Err(EncodeError::BufferSize);
    }
    if !stream_fits(width, height, 0) {
        return Err(EncodeError::TooLarge);
    }
    let ghost pieces = static_pieces(width, height, data@);
    let mut out: Vec<u8> = Vec::new();
    push_chunk(&mut out, Chunk::Sign);
    push_chunk(
        &mut out,
        Chunk::Ihdr(
            Ihdr {
                width,
                height,
                bit_depth: 8,
                colour_type: 6,
                compression_method: 0,
                filter_method: 0,
                interlace_method: 0,
            },
        ),
    );
    let image_data = u32_to_u8(data);
    assert(image_data@.len() == 4 * width * height) by (nonlinear_arith)
        requires
            image_data@.len() == 4 * data@.len(),
            data@.len() == width * height,
    ;
    push_chunk(&mut out, Chunk::Idat(Idat { width, height, image_data }));
    push_chunk(&mut out, Chunk::Iend);
    proof {
        let e = Seq::<Piece>::empty();
        assert(pieces =~= e.push(pieces[0]).push(pieces[1]).push(pieces[2]));
        lemma_concat_push(e, pieces[0]);
        lemma_concat_push(e.push(pieces[0]), pieces[1]);
        lemma_concat_push(e.push(pieces[0]).push(pieces[1]), pieces[2]);
        assert(out@ =~= static_png(width, height, data@));
    }
    Ok(out)
}

/// The APNG file of an animation of `width` by `height` pixels whose frames are
/// given in order, each top row first. It loops forever and shows its frames
/// with no delay, no disposal and source blending.
pub fn encode_animated(width: u32, height: u32, frames: &[Vec<u32>]) -> (r: Result<
    Vec<u8>,
    EncodeError,
>)
    ensures
        frames@.len() > MAX_FRAMES ==> r == Err::<Vec<u8>, EncodeError>(
            EncodeError::TooManyFrames,
        ),
        frames@.len() <= MAX_FRAMES && (exists|i: int|
            0 <= i < frames@.len() && #[trigger] frames@[i]@.len() != width * height) ==> r == Err::<
            Vec<u8>,
            EncodeError,
        >(EncodeError::BufferSize),
        frames@.len() <= MAX_FRAMES && (forall|i: int|
            0 <= i < frames@.len() ==> #[trigger] frames@[i]@.len() == width * height) && !frames_fit(
            width,
            height,
            frames@.len(),
        ) ==> r == Err::<Vec<u8>, EncodeError>(EncodeError::TooLarge),
        frames@.len() <= MAX_FRAMES && (forall|i: int|
            0 <= i < frames@.len() ==> #[trigger] frames@[i]@.len() == width * height) && frames_fit(
            width,
            height,
            frames@.len(),
        ) ==> (r matches Ok(v) && v@ == animated_png(width, height, frames_view(frames@))),
{
    let n = frames.len();
    if n > MAX_FRAMES {
        return Err(EncodeError::TooManyFrames);
    }
    assert(width as u64 * height as u64 <= u64::MAX) by (nonlinear_arith);
    let area: u64 = width as u64 * height as u64;
    let mut k: usize = 0;
    while k < n
        invariant
            k <= n == frames@.len() <= MAX_FRAMES,
            area == width * height,
            forall|i: int| 0 <= i < k ==> #[trigger] frames@[i]@.len() == width * height,
        decreases n - k,
    {
        if frames[k].len() as u64 != area {
            return Err(EncodeError::BufferSize);
        }
        k = k + 1;
    }
    if n >= 1 && !stream_fits(width, height, 0) {
        return Err(EncodeError::TooLarge);
    }
    if n >= 2 && !stream_fits(width, height, 4) {
        return Err(EncodeError::TooLarge);
    }
    let ghost fs = frames_view(frames@);
    let ghost head = seq![
        (ihdr_kind(), ihdr_payload(rgba_header(width, height))),
        (actl_kind(), actl_payload(Actl { num_frames: n as u32, num_plays: 0 })),
    ];
    let mut out: Vec<u8> = Vec::new();
    push_chunk(&mut out, Chunk::Sign);
    push_chunk(
        &mut out,
        Chunk::Ihdr(
            Ihdr {
                width,
                height,
                bit_depth: 8,
                colour_type: 6,
                compression_method: 0,
                filter_method: 0,
                interlace_method: 0,
            },
        ),
    );
    push_chunk(&mut out, Chunk::Actl(Actl { num_frames: n as u32, num_plays: 0 }));
    proof {
        let e = Seq::<Piece>::empty();
        assert(head =~= e.push(head[0]).push(head[1]));
        lemma_concat_push(e, head[0]);
        lemma_concat_push(e.push(head[0]), head[1]);
        assert(head + frames_pieces(width, height, fs, 0) =~= head);
    }
    let mut idx: u32 = 0;
    let mut i: usize = 0;
    while i < n
        invariant
            i <= n == frames@.len() <= MAX_FRAMES,
            fs == frames_view(frames@),
            forall|j: int| 0 <= j < n ==> #[trigger] frames@[j]@.len() == width * height,
            frames_fit(width, height, n as nat),
            idx == fctl_sequence(i as nat),
            out@ == signature() + concat_framed(head + frames_pieces(width, height, fs, i as nat)),
        decreases n - i,
    {
        let ghost before = head + frames_pieces(width, height, fs, i as nat);
        let ghost pieces = frame_pieces(i as nat, width, height, fs[i as int]);
        push_chunk(
            &mut out,
            Chunk::Fctl(
                Fctl {
                    sequence_number: idx,
                    width,
                    height,
                    x_offset: 0,
                    y_offset: 0,
                    delay_num: 0,
                    delay_den: 0,
                    dispose_op: 0,
                    blend_op: 0,
                },
            ),
        );
        let image_data = u32_to_u8(frames[i].as_slice());
        assert(image_data@.len() == 4 * width * height) by (nonlinear_arith)
            requires
                image_data@.len() == 4 * frames@[i as int]@.len(),
                frames@[i as int]@.len() == width * height,
        ;
        if idx != 0 {
            idx = idx + 1;
            push_chunk(
                &mut out,
                Chunk::Fdat(Fdat { sequence_number: idx, width, height, image_data }),
            );
        } else {
            push_chunk(&mut out, Chunk::Idat(Idat { width, height, image_data }));
        }
        idx = idx + 1;
        proof {
            lemma_concat_push2(before, pieces[0], pieces[1]);
            assert(head + frames_pieces(width, height, fs, (i + 1) as nat) =~= before + seq![
                pieces[0],
                pieces[1],
            ]);
        }
        i = i + 1;
    }
    push_chunk(&mut out, Chunk::Iend);
    proof {
        let all = head + frames_pieces(width, height, fs, n as nat);
        lemma_concat_push(all, (iend_kind(), Seq::empty()));
        assert(all.push((iend_kind(), Seq::empty())) =~= animation_pieces(width, height, fs));
        assert(out@ =~= animated_png(width, height, fs));
    }
    Ok(out)
}

/// The pixels of each frame.
pub open spec fn frames_view(frames: Seq<Vec<u32>>) -> Seq<Seq<u32>> {
    frames.map_values(|f: Vec<u32>| f@)
}

/// Chunk types that carry a sequence number.
pub open spec fn is_numbered(kind: Seq<u8>) -> bool {
    kind == fctl_kind() || kind == fdat_kind()
}

/// The sequence numbers of the numbered chunks of `pieces`, in order.
pub open spec fn sequence_numbers(pieces: Seq<Piece>) -> Seq<int>
    decreases pieces.len(),
{
    if pieces.len() == 0 {
        Seq::empty()
    } else if is_numbered(pieces.last().0) {
        sequence_numbers(pieces.drop_last()).push(be32_value(pieces.last().1.take(4)))
    } else {
        sequence_numbers(pieces.drop_last())
    }
}

/// How many chunks of `pieces` have type `kind`.
pub open spec fn count_kind(pieces: Seq<Piece>, kind: Seq<u8>) -> nat
    decreases pieces.len(),
{
    if pieces.len() == 0 {
        0
    } else {
        count_kind(pieces.drop_last(), kind) + if pieces.last().0 == kind {
            1nat
        } else {
            0nat
        }
    }
}

/// The integers from 0 up to `n`, `n` excluded.
pub open spec fn count_up(n: nat) -> Seq<int> {
    Seq::new(n, |j: int| j)
}

proof fn lemma_kinds_differ()
    ensures
        fctl_kind() != fdat_kind(),
        fctl_kind() != idat_kind(),
        fdat_kind() != idat_kind(),
        !is_numbered(ihdr_kind()),
        !is_numbered(actl_kind()),
        !is_numbered(idat_kind()),
        !is_numbered(iend_kind()),
{
    assert(fctl_kind()[1] != fdat_kind()[1]);
    assert(fctl_kind()[0] != idat_kind()[0]);
    assert(fdat_kind()[0] != idat_kind()[0]);
    assert(ihdr_kind()[0] != fctl_kind()[0] && ihdr_kind()[0] != fdat_kind()[0]);
    assert(actl_kind()[0] != fctl_kind()[0] && actl_kind()[0] != fdat_kind()[0]);
    assert(iend_kind()[0] != fctl_kind()[0] && iend_kind()[0] != fdat_kind()[0]);
}

proof fn lemma_frames_sequence(width: u32, height: u32, frames: Seq<Seq<u32>>, k: nat)
    requires
        k <= frames.len() <= MAX_FRAMES,
    ensures
        frames_pieces(width, height, frames, k).len() == 2 * k,
        count_kind(frames_pieces(width, height, frames, k), fctl_kind()) == k,
        sequence_numbers(frames_pieces(width, height, frames, k)) == count_up(
            if k == 0 {
                0
            } else {
                (2 * k - 1) as nat
            },
        ),
    decreases k,
{
    if k > 0 {
        let i = (k - 1) as nat;
        let prev = frames_pieces(width, height, frames, i);
        let fp = frame_pieces(i, width, height, frames[i as int]);
        lemma_frames_sequence(width, height, frames, i);
        lemma_kinds_differ();
        let all = frames_pieces(width, height, frames, k);
        assert(all =~= prev.push(fp[0]).push(fp[1]));
        assert(prev.push(fp[0]).push(fp[1]).drop_last() =~= prev.push(fp[0]));
        assert(prev.push(fp[0]).drop_last() =~= prev);
        let f = frame_control(i, width, height);
        assert(fctl_payload(f).take(4) =~= be32(fctl_sequence(i) as u32));
        lemma_be32_value(fctl_sequence(i) as u32);
        let p1 = prev.push(fp[0]);
        assert(p1.last() == fp[0]);
        assert(all.last() == fp[1]);
        assert(is_numbered(fp[0].0));
        assert(fp[0].0 == fctl_kind());
        assert(count_kind(p1, fctl_kind()) == count_kind(prev, fctl_kind()) + 1);
        assert(fp[1].0 != fctl_kind());
        assert(count_kind(all, fctl_kind()) == count_kind(p1, fctl_kind()));
        assert(sequence_numbers(p1) == sequence_numbers(prev).push(fctl_sequence(i) as int));
        if i == 0 {
            assert(!is_numbered(fp[1].0));
            assert(sequence_numbers(all) == sequence_numbers(p1));
            assert(sequence_numbers(all) =~= count_up(1));
        } else {
            let stream = image_stream(width, height, pixel_bytes(frames[i as int]));
            assert((be32(fdat_sequence(i) as u32) + stream).take(4) =~= be32(
                fdat_sequence(i) as u32,
            ));
            lemma_be32_value(fdat_sequence(i) as u32);
            assert(is_numbered(fp[1].0));
            assert(sequence_numbers(all) == sequence_numbers(p1).push(fdat_sequence(i) as int));
            assert(sequence_numbers(all) =~= count_up((2 * k - 1) as nat));
        }
    }
}

proof fn lemma_sequence_append_plain(pieces: Seq<Piece>, p: Piece)
    requires
        !is_numbered(p.0),
    ensures
        sequence_numbers(pieces.push(p)) == sequence_numbers(pieces),
{
    assert(pieces.push(p).drop_last() =~= pieces);
}

proof fn lemma_sequence_concat(a: Seq<Piece>, b: Seq<Piece>)
    ensures
        sequence_numbers(a + b) == sequence_numbers(a) + sequence_numbers(b),
        count_kind(a + b, fctl_kind()) == count_kind(a, fctl_kind()) + count_kind(b, fctl_kind()),
    decreases b.len(),
{
    if b.len() == 0 {
        assert(a + b =~= a);
        assert(sequence_numbers(a) + sequence_numbers(b) =~= sequence_numbers(a));
    } else {
        lemma_sequence_concat(a, b.drop_last());
        assert((a + b).drop_last() =~= a + b.drop_last());
        assert((a + b).last() == b.last());
        if is_numbered(b.last().0) {
            assert(sequence_numbers(a + b) =~= sequence_numbers(a) + sequence_numbers(b));
        } else {
            assert(sequence_numbers(a + b) =~= sequence_numbers(a) + sequence_numbers(b));
        }
    }
}

/// An animation of `n` frames declares `n` frames in its acTL chunk, which
/// follows the header, and holds `n` fcTL chunks. The fcTL and fdAT chunks
/// carry the sequence numbers 0, 1, 2, ... in the order they come, each one
/// more than the last. Frame `i` is the fcTL chunk at place `2 + 2i` and the
/// data chunk after it: an IDAT chunk for frame 0, an fdAT chunk for the others,
/// whose zlib stream inflates to the scanlines of that frame.
pub proof fn lemma_animation_structure(width: u32, height: u32, frames: Seq<Seq<u32>>)
    requires
        frames.len() <= MAX_FRAMES,
    ensures
        ({
            let pieces = animation_pieces(width, height, frames);
            let n = frames.len();
            &&& pieces.len() == 2 * n + 3
            &&& pieces[0].0 == ihdr_kind()
            &&& pieces[1] == (actl_kind(), be32(n as u32) + be32(0))
            &&& be32_value(pieces[1].1.take(4)) == n
            &&& pieces[pieces.len() - 1] == (iend_kind(), Seq::<u8>::empty())
            &&& count_kind(pieces, fctl_kind()) == n
            &&& sequence_numbers(pieces) == count_up(
                if n == 0 {
                    0
                } else {
                    (2 * n - 1) as nat
                },
            )
            &&& forall|i: int|
                0 <= i < n ==> {
                    let data = pieces[3 + 2 * i];
                    let stream = if i == 0 {
                        data.1
                    } else {
                        data.1.skip(4)
                    };
                    &&& #[trigger] pieces[2 + 2 * i].0 == fctl_kind()
                    &&& data.0 == (if i == 0 {
                        idat_kind()
                    } else {
                        fdat_kind()
                    })
                    &&& inflate_zlib(stream) == Some(
                        scanlines(4 * width as nat, height as nat, pixel_bytes(frames[i])),
                    )
                }
        }),
{
    let n = frames.len();
    let head = seq![
        (ihdr_kind(), ihdr_payload(rgba_header(width, height))),
        (actl_kind(), actl_payload(Actl { num_frames: n as u32, num_plays: 0 })),
    ];
    let body = frames_pieces(width, height, frames, n);
    let tail = seq![(iend_kind(), Seq::<u8>::empty())];
    let pieces = animation_pieces(width, height, frames);
    lemma_frames_sequence(width, height, frames, n);
    lemma_be32_value(n as u32);
    assert(pieces[1].1.take(4) =~= be32(n as u32));
    lemma_unnumbered_pieces(head[0], head[1]);
    lemma_unnumbered_pieces(tail[0], tail[0]);
    assert(head =~= seq![head[0], head[1]]);
    assert(tail =~= seq![tail[0]]);
    assert(pieces =~= (head + body) + tail);
    lemma_sequence_concat(head, body);
    lemma_sequence_concat(head + body, tail);
    assert(sequence_numbers(pieces) =~= sequence_numbers(body));
    assert(pieces.len() == 2 * n + 3);
    assert(pieces[0].0 == ihdr_kind());
    assert(pieces[1] == (actl_kind(), be32(n as u32) + be32(0)));
    assert(pieces[pieces.len() - 1] == (iend_kind(), Seq::<u8>::empty()));
    assert(count_kind(pieces, fctl_kind()) == n);
    assert forall|i: int| 0 <= i < n implies {
        let data = pieces[3 + 2 * i];
        let stream = if i == 0 {
            data.1
        } else {
            data.1.skip(4)
        };
        &&& #[trigger] pieces[2 + 2 * i].0 == fctl_kind()
        &&& data.0 == (if i == 0 {
            idat_kind()
        } else {
            fdat_kind()
        })
        &&& inflate_zlib(stream) == Some(
            scanlines(4 * width as nat, height as nat, pixel_bytes(frames[i])),
        )
    } by {
        lemma_frame_data(width, height, frames, i as nat);
    }
}

proof fn lemma_unnumbered_pieces(a: Piece, b: Piece)
    requires
        !is_numbered(a.0),
        !is_numbered(b.0),
    ensures
        sequence_numbers(seq![a]) == Seq::<int>::empty(),
        count_kind(seq![a], fctl_kind()) == 0,
        sequence_numbers(seq![a, b]) == Seq::<int>::empty(),
        count_kind(seq![a, b], fctl_kind()) == 0,
{
    let e = Seq::<Piece>::empty();
    assert(seq![a].drop_last() =~= e);
    assert(seq![a].last() == a);
    assert(seq![a, b].drop_last() =~= seq![a]);
    assert(seq![a, b].last() == b);
    assert(a.0 != fctl_kind() && b.0 != fctl_kind());
    assert(sequence_numbers(e) =~= Seq::<int>::empty());
    assert(count_kind(e, fctl_kind()) == 0);
    assert(sequence_numbers(seq![a]) =~= Seq::<int>::empty());
    assert(count_kind(seq![a], fctl_kind()) == 0);
}

proof fn lemma_frame_data(width: u32, height: u32, frames: Seq<Seq<u32>>, i: nat)
    requires
        i < frames.len() <= MAX_FRAMES,
    ensures
        ({
            let pieces = animation_pieces(width, height, frames);
            let data = pieces[3 + 2 * i as int];
            let stream = if i == 0 {
                data.1
            } else {
                data.1.skip(4)
            };
            &&& pieces[2 + 2 * i as int].0 == fctl_kind()
            &&& data.0 == (if i == 0 {
                idat_kind()
            } else {
                fdat_kind()
            })
            &&& inflate_zlib(stream) == Some(
                scanlines(4 * width as nat, height as nat, pixel_bytes(frames[i as int])),
            )
        }),
{
    let n = frames.len();
    let pieces = animation_pieces(width, height, frames);
    let body = frames_pieces(width, height, frames, n);
    let fp = frame_pieces(i, width, height, frames[i as int]);
    lemma_frames_len(width, height, frames, n);
    lemma_frames_index(width, height, frames, n, i);
    assert(pieces[2 + 2 * i as int] == body[2 * i as int]);
    assert(pieces[3 + 2 * i as int] == body[(2 * i + 1) as int]);
    let lines = scanlines(4 * width as nat, height as nat, pixel_bytes(frames[i as int]));
    let stream = image_stream(width, height, pixel_bytes(frames[i as int]));
    lemma_stored_zlib_round_trip(lines);
    assert(inflate_zlib(stream) == Some(lines));
    if i > 0 {
        assert(fp[1].1 == be32(fdat_sequence(i) as u32) + stream);
        assert(fp[1].1.skip(4) =~= stream);
    } else {
        assert(fp[1].1 == stream);
    }
}

proof fn lemma_frames_index(width: u32, height: u32, frames: Seq<Seq<u32>>, k: nat, i: nat)
    requires
        i < k <= frames.len(),
    ensures
        frames_pieces(width, height, frames, k)[2 * i as int] == frame_pieces(
            i,
            width,
            height,
            frames[i as int],
        )[0],
        frames_pieces(width, height, frames, k)[(2 * i + 1) as int] == frame_pieces(
            i,
            width,
            height,
            frames[i as int],
        )[1],
    decreases k,
{
    lemma_frames_len(width, height, frames, (k - 1) as nat);
    if i < k - 1 {
        lemma_frames_index(width, height, frames, (k - 1) as nat, i);
    }
}

proof fn lemma_frames_len(width: u32, height: u32, frames: Seq<Seq<u32>>, k: nat)
    requires
        k <= frames.len(),
    ensures
        frames_pieces(width, height, frames, k).len() == 2 * k,
    decreases k,
{
    if k > 0 {
        lemma_frames_len(width, height, frames, (k - 1) as nat);
    }
}

/// `rows` are `height` scanlines of filter type 0 for an image `width` pixels
/// wide in which the pixel at row `r` from the top and column `c` holds the four
/// bytes of `pixels[(height - 1 - r) * width + c]`.
pub open spec fn shows_flipped(rows: Seq<u8>, width: u32, height: u32, pixels: Seq<u32>) -> bool {
    &&& rows.len() == (4 * width + 1) * height
    &&& forall|r: int, c: int|
        0 <= r < height && 0 <= c < width ==> #[trigger] pixel_at(rows, width, r, c) == be32(
            pixels[(height - 1 - r) * width + c],
        ) && filter_at(rows, width, r) == 0
}

/// The filter-type byte of scanline `r` of an image `width` pixels wide.
pub open spec fn filter_at(rows: Seq<u8>, width: u32, r: int) -> u8 {
    rows[r * (4 * width + 1)]
}

/// The four bytes of the pixel at column `c` of scanline `r` of an image
/// `width` pixels wide.
pub open spec fn pixel_at(rows: Seq<u8>, width: u32, r: int, c: int) -> Seq<u8> {
    let start = r * (4 * width + 1) + 1 + 4 * c;
    rows.subrange(start, start + 4)
}

/// A still image of `width` by `height` pixels reads back as such: its header
/// gives the width and the height, and its image data inflates to `height`
/// scanlines of filter type 0 in which the pixel at row `r` from the top and
/// column `c` holds the four bytes of `pixels[(height - 1 - r) * width + c]`:
/// the image is the buffer turned upside down.
pub proof fn lemma_static_image_rows(width: u32, height: u32, pixels: Seq<u32>)
    requires
        pixels.len() == width * height,
    ensures
        ({
            let pieces = static_pieces(width, height, pixels);
            &&& pieces.len() == 3
            &&& pieces[0].0 == ihdr_kind()
            &&& be32_value(pieces[0].1.take(4)) == width
            &&& be32_value(pieces[0].1.subrange(4, 8)) == height
            &&& pieces[1].0 == idat_kind()
            &&& pieces[2] == (iend_kind(), Seq::<u8>::empty())
            &&& inflate_zlib(pieces[1].1) matches Some(rows) && shows_flipped(
                rows,
                width,
                height,
                pixels,
            )
        }),
{
    let pieces = static_pieces(width, height, pixels);
    let rl = 4 * width as nat;
    let data = pixel_bytes(pixels);
    let rows = scanlines(rl, height as nat, data);
    lemma_pixel_bytes_len(pixels);
    assert(data.len() == rl * height) by (nonlinear_arith)
        requires
            data.len() == 4 * pixels.len(),
            pixels.len() == width * height,
            rl == 4 * width,
    ;
    lemma_scanlines_len(rl, height as nat, data);
    lemma_stored_zlib_round_trip(rows);
    lemma_be32_value(width);
    lemma_be32_value(height);
    assert(pieces[0].1.take(4) =~= be32(width));
    assert(pieces[0].1.subrange(4, 8) =~= be32(height));
    assert forall|r: int, c: int| 0 <= r < height && 0 <= c < width implies #[trigger] pixel_at(
        rows,
        width,
        r,
        c,
    ) == be32(pixels[(height - 1 - r) * width + c]) && filter_at(rows, width, r) == 0 by {
        lemma_static_pixel(width, height, pixels, r, c);
    }
    assert(shows_flipped(rows, width, height, pixels));
    assert(pieces[1].1 == zlib_stored(rows));
    assert(pieces[2] == (iend_kind(), Seq::<u8>::empty()));
}

proof fn lemma_static_pixel(width: u32, height: u32, pixels: Seq<u32>, r: int, c: int)
    requires
        pixels.len() == width * height,
        0 <= r < height,
        0 <= c < width,
    ensures
        ({
            let rows = scanlines(4 * width as nat, height as nat, pixel_bytes(pixels));
            &&& filter_at(rows, width, r) == 0
            &&& pixel_at(rows, width, r, c) == be32(pixels[(height - 1 - r) * width + c])
        }),
{
    let line = 4 * width + 1;
    let rl = 4 * width as nat;
    let data = pixel_bytes(pixels);
    let rows = scanlines(rl, height as nat, data);
    lemma_pixel_bytes_len(pixels);
    assert(data.len() == rl * height) by (nonlinear_arith)
        requires
            data.len() == 4 * pixels.len(),
            pixels.len() == width * height,
            rl == 4 * width,
    ;
    lemma_scanlines_len(rl, height as nat, data);
    let p = (height - 1 - r) * width + c;
    assert(0 <= p < pixels.len() && (height - 1 - r) * rl + 4 * c == 4 * p && r * line + 5 + 4 * c
        <= line * height) by (nonlinear_arith)
        requires
            0 <= r < height,
            0 <= c < width,
            p == (height - 1 - r) * width + c,
            pixels.len() == width * height,
            rl == 4 * width,
            line == rl + 1,
    ;
    lemma_scanlines_at(rl, height as nat, data, r, 0);
    let start = r * line + 1 + 4 * c;
    assert(r * line == r * (rl + 1));
    let sub = rows.subrange(start, start + 4);
    assert forall|k: int| 0 <= k < 4 implies #[trigger] sub[k] == be32(pixels[p])[k] by {
        lemma_scanlines_at(rl, height as nat, data, r, 4 * c + k);
        lemma_pixel_bytes_at(pixels, p, k);
        assert(start + k == r * (rl + 1) + 1 + (4 * c + k));
    }
    assert(sub =~= be32(pixels[p]));
}

} // verus!
