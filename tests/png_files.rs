use apng_writer::adler32::Adler32;
use apng_writer::bytes::u32_to_u8;
use apng_writer::chunk::{Actl, Chunk, EncodeError, Fctl, Ihdr};
use apng_writer::crc32::Crc32;
use apng_writer::png::{encode_animated, encode_static};
use apng_writer::raster::scanlines_of;

const SIGNATURE: [u8; 8] = [0x89, 0x50, 0x4E, 0x47, 0x0D, 0x0A, 0x1A, 0x0A];

/// Splits a file after its signature into (type, payload) pairs, checking each CRC.
fn chunks(file: &[u8]) -> Vec<([u8; 4], Vec<u8>)> {
    assert_eq!(&file[..8], &SIGNATURE);
    let mut pos = 8;
    let mut out = Vec::new();
    while pos < file.len() {
        let len = u32::from_be_bytes([file[pos], file[pos + 1], file[pos + 2], file[pos + 3]]) as usize;
        let kind = [file[pos + 4], file[pos + 5], file[pos + 6], file[pos + 7]];
        let body = &file[pos + 4..pos + 8 + len];
        let crc = &file[pos + 8 + len..pos + 12 + len];
        assert_eq!(crc, &Crc32::from(body).fin().to_be_bytes());
        out.push((kind, file[pos + 8..pos + 8 + len].to_vec()));
        pos += 12 + len;
    }
    assert_eq!(pos, file.len());
    out
}

fn inflate(z: &[u8]) -> Vec<u8> {
    assert_eq!(&z[..2], &[0x78, 0x01]);
    let mut pos = 2;
    let mut out = Vec::new();
    loop {
        let head = z[pos];
        let len = z[pos + 1] as usize | (z[pos + 2] as usize) << 8;
        let nlen = z[pos + 3] as usize | (z[pos + 4] as usize) << 8;
        assert_eq!(len ^ 0xFFFF, nlen);
        out.extend_from_slice(&z[pos + 5..pos + 5 + len]);
        pos += 5 + len;
        if head & 1 == 1 {
            break;
        }
    }
    assert_eq!(&z[pos..], &Adler32::from(&out).fin().to_be_bytes());
    out
}

fn be32(b: &[u8]) -> u32 {
    u32::from_be_bytes([b[0], b[1], b[2], b[3]])
}

#[test]
fn signature_chunk_is_verbatim() {
    assert_eq!(Chunk::Sign.form_chunk().unwrap(), SIGNATURE.to_vec());
}

#[test]
fn iend_chunk_bytes() {
    assert_eq!(
        Chunk::Iend.form_chunk().unwrap(),
        vec![0, 0, 0, 0, 0x49, 0x45, 0x4E, 0x44, 0xAE, 0x42, 0x60, 0x82]
    );
}

#[test]
fn format_frames_type_and_payload() {
    let framed = Chunk::format(b"tEXtab");
    assert_eq!(&framed[..4], &[0, 0, 0, 2]);
    assert_eq!(&framed[4..10], b"tEXtab");
    assert_eq!(&framed[10..], &Crc32::from(b"tEXtab").fin().to_be_bytes());
}

#[test]
fn ihdr_chunk_bytes() {
    let bytes = Chunk::Ihdr(Ihdr {
        width: 1,
        height: 1,
        bit_depth: 8,
        colour_type: 6,
        compression_method: 0,
        filter_method: 0,
        interlace_method: 0,
    })
    .form_chunk()
    .unwrap();
    assert_eq!(
        bytes,
        vec![
            0, 0, 0, 13, 0x49, 0x48, 0x44, 0x52, 0, 0, 0, 1, 0, 0, 0, 1, 8, 6, 0, 0, 0, 0x1F,
            0x15, 0xC4, 0x89
        ]
    );
}

#[test]
fn ihdr_of_other_format_is_unsupported() {
    let r = Chunk::Ihdr(Ihdr {
        width: 1,
        height: 1,
        bit_depth: 16,
        colour_type: 2,
        compression_method: 0,
        filter_method: 0,
        interlace_method: 0,
    })
    .form_chunk();
    assert_eq!(r, Err(EncodeError::Unsupported));
}

#[test]
fn actl_and_fctl_payloads() {
    let actl = Chunk::Actl(Actl { num_frames: 3, num_plays: 0 }).form_chunk().unwrap();
    let parsed = chunks(&[SIGNATURE.to_vec(), actl].concat());
    assert_eq!(&parsed[0].0, b"acTL");
    assert_eq!(parsed[0].1, vec![0, 0, 0, 3, 0, 0, 0, 0]);
    let fctl = Chunk::Fctl(Fctl {
        sequence_number: 5,
        width: 2,
        height: 3,
        x_offset: 0,
        y_offset: 0,
        delay_num: 1,
        delay_den: 10,
        dispose_op: 0,
        blend_op: 1,
    })
    .form_chunk()
    .unwrap();
    let parsed = chunks(&[SIGNATURE.to_vec(), fctl].concat());
    assert_eq!(&parsed[0].0, b"fcTL");
    assert_eq!(
        parsed[0].1,
        vec![0, 0, 0, 5, 0, 0, 0, 2, 0, 0, 0, 3, 0, 0, 0, 0, 0, 0, 0, 0, 0, 1, 0, 10, 0, 1]
    );
}

#[test]
fn pixels_expand_most_significant_first() {
    assert_eq!(
        u32_to_u8(&[0x1122_3344, 0xAABB_CCDD]),
        vec![0x11, 0x22, 0x33, 0x44, 0xAA, 0xBB, 0xCC, 0xDD]
    );
}

#[test]
fn scanlines_run_last_row_first() {
    let data: Vec<u8> = (1..=16).collect();
    assert_eq!(
        scanlines_of(2, 2, &data),
        vec![0, 9, 10, 11, 12, 13, 14, 15, 16, 0, 1, 2, 3, 4, 5, 6, 7, 8]
    );
    assert_eq!(scanlines_of(3, 0, &[]), Vec::<u8>::new());
}

#[test]
fn two_by_two_static_image() {
    let buffer = [0xFF0000FF, 0x00FF00FF, 0x0000FFFF, 0xFFFFFFFF];
    let file = encode_static(2, 2, &buffer).unwrap();
    let parsed = chunks(&file);
    assert_eq!(parsed.len(), 3);
    assert_eq!(&parsed[0].0, b"IHDR");
    assert_eq!(parsed[0].1, vec![0, 0, 0, 2, 0, 0, 0, 2, 8, 6, 0, 0, 0]);
    assert_eq!(&parsed[1].0, b"IDAT");
    assert_eq!(&parsed[2].0, b"IEND");
    assert!(parsed[2].1.is_empty());
    let rows = inflate(&parsed[1].1);
    // top row: blue, white; bottom row: red, green
    assert_eq!(
        rows,
        vec![
            0, 0x00, 0x00, 0xFF, 0xFF, 0xFF, 0xFF, 0xFF, 0xFF, //
            0, 0xFF, 0x00, 0x00, 0xFF, 0x00, 0xFF, 0x00, 0xFF,
        ]
    );
}

#[test]
fn static_image_rows_are_flipped() {
    let (w, h) = (3u32, 4u32);
    let buffer: Vec<u32> = (0..w * h).map(|i| 0x0101_0101 * i).collect();
    let parsed = chunks(&encode_static(w, h, &buffer).unwrap());
    let rows = inflate(&parsed[1].1);
    assert_eq!(rows.len(), ((4 * w + 1) * h) as usize);
    for r in 0..h {
        let line = &rows[(r * (4 * w + 1)) as usize..((r + 1) * (4 * w + 1)) as usize];
        assert_eq!(line[0], 0);
        for c in 0..w {
            let at = (1 + 4 * c) as usize;
            assert_eq!(be32(&line[at..at + 4]), buffer[((h - 1 - r) * w + c) as usize]);
        }
    }
}

#[test]
fn static_buffer_of_wrong_size() {
    assert_eq!(encode_static(2, 2, &[0; 3]), Err(EncodeError::BufferSize));
    assert_eq!(encode_static(2, 2, &[0; 5]), Err(EncodeError::BufferSize));
}

#[test]
fn empty_static_image() {
    let parsed = chunks(&encode_static(0, 0, &[]).unwrap());
    assert_eq!(parsed.len(), 3);
    assert_eq!(inflate(&parsed[1].1), Vec::<u8>::new());
}

fn sequence_numbers(parsed: &[([u8; 4], Vec<u8>)]) -> Vec<u32> {
    parsed
        .iter()
        .filter(|(k, _)| k == b"fcTL" || k == b"fdAT")
        .map(|(_, p)| be32(p))
        .collect()
}

#[test]
fn animation_sequence_for_one_two_three_frames() {
    for n in 1..=3u32 {
        let frames: Vec<Vec<u32>> = (0..n).map(|i| vec![i; 4]).collect();
        let parsed = chunks(&encode_animated(2, 2, &frames).unwrap());
        assert_eq!(&parsed[0].0, b"IHDR");
        assert_eq!(&parsed[1].0, b"acTL");
        assert_eq!(parsed[1].1, [n.to_be_bytes(), 0u32.to_be_bytes()].concat());
        let kinds: Vec<[u8; 4]> = parsed.iter().map(|(k, _)| *k).collect();
        assert_eq!(kinds.iter().filter(|k| *k == b"fcTL").count(), n as usize);
        assert_eq!(&parsed[2].0, b"fcTL");
        assert_eq!(&parsed[3].0, b"IDAT");
        for i in 1..n as usize {
            assert_eq!(&parsed[2 + 2 * i].0, b"fcTL");
            assert_eq!(&parsed[3 + 2 * i].0, b"fdAT");
        }
        assert_eq!(&parsed.last().unwrap().0, b"IEND");
        let expected: Vec<u32> = (0..2 * n - 1).collect();
        assert_eq!(sequence_numbers(&parsed), expected);
    }
    let frames: Vec<Vec<u32>> = (0..3).map(|i| vec![i; 4]).collect();
    let parsed = chunks(&encode_animated(2, 2, &frames).unwrap());
    assert_eq!(sequence_numbers(&parsed), vec![0, 1, 2, 3, 4]);
}

#[test]
fn animation_frames_decode_from_their_chunks() {
    let frames: Vec<Vec<u32>> = vec![
        vec![0xFF0000FF, 0x00FF00FF, 0x0000FFFF, 0xFFFFFFFF],
        vec![0x11111111, 0x22222222, 0x33333333, 0x44444444],
    ];
    let parsed = chunks(&encode_animated(2, 2, &frames).unwrap());
    let fctl = &parsed[2].1;
    assert_eq!(
        fctl,
        &vec![0, 0, 0, 0, 0, 0, 0, 2, 0, 0, 0, 2, 0, 0, 0, 0, 0, 0, 0, 0, 0, 0, 0, 0, 0, 0]
    );
    let first = inflate(&parsed[3].1);
    assert_eq!(first, scanlines_of(2, 2, &u32_to_u8(&frames[0])));
    assert_eq!(be32(&parsed[5].1[..4]), 2);
    let second = inflate(&parsed[5].1[4..]);
    assert_eq!(second, scanlines_of(2, 2, &u32_to_u8(&frames[1])));
}

#[test]
fn animation_without_frames() {
    let parsed = chunks(&encode_animated(4, 4, &[]).unwrap());
    let kinds: Vec<[u8; 4]> = parsed.iter().map(|(k, _)| *k).collect();
    assert_eq!(kinds, vec![*b"IHDR", *b"acTL", *b"IEND"]);
}

#[test]
fn animation_frame_of_wrong_size() {
    let frames = vec![vec![0u32; 4], vec![0u32; 3]];
    assert_eq!(encode_animated(2, 2, &frames), Err(EncodeError::BufferSize));
}
