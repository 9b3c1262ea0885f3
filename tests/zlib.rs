use apng_writer::adler32::Adler32;
use apng_writer::deflate::{compress, fake_compress};

/// Reads back the stored blocks of a zlib stream, checking every field.
fn inflate(z: &[u8]) -> Vec<u8> {
    assert_eq!(&z[..2], &[0x78, 0x01]);
    assert_eq!((0x78u32 * 256 + 0x01) % 31, 0);
    let mut pos = 2;
    let mut out = Vec::new();
    loop {
        let head = z[pos];
        assert_eq!(head & 0x06, 0);
        let len = z[pos + 1] as usize | (z[pos + 2] as usize) << 8;
        let nlen = z[pos + 3] as usize | (z[pos + 4] as usize) << 8;
        assert_eq!(len ^ 0xFFFF, nlen);
        out.extend_from_slice(&z[pos + 5..pos + 5 + len]);
        pos += 5 + len;
        if head & 1 == 1 {
            break;
        }
    }
    let check = u32::from_be_bytes([z[pos], z[pos + 1], z[pos + 2], z[pos + 3]]);
    assert_eq!(check, Adler32::from(&out).fin());
    assert_eq!(pos + 4, z.len());
    out
}

#[test]
fn empty_input_gets_an_empty_final_block() {
    assert_eq!(
        fake_compress(&[]),
        vec![0x78, 0x01, 0x01, 0x00, 0x00, 0xFF, 0xFF, 0x00, 0x00, 0x00, 0x01]
    );
}

#[test]
fn single_byte() {
    let z = fake_compress(&[0x41]);
    assert_eq!(z, vec![0x78, 0x01, 0x01, 0x01, 0x00, 0xFE, 0xFF, 0x41, 0x00, 0x42, 0x00, 0x42]);
    assert_eq!(inflate(&z), vec![0x41]);
}

#[test]
fn exactly_one_full_block() {
    let data: Vec<u8> = (0..65530u32).map(|i| (i % 251) as u8).collect();
    let z = fake_compress(&data);
    assert_eq!(z.len(), 2 + 5 + 65530 + 4);
    assert_eq!(&z[2..7], &[0x01, 0xFA, 0xFF, 0x05, 0x00]);
    assert_eq!(inflate(&z), data);
}

#[test]
fn one_byte_past_a_block() {
    let data: Vec<u8> = (0..65531u32).map(|i| (i % 253) as u8).collect();
    let z = fake_compress(&data);
    assert_eq!(z.len(), 2 + 5 + 65530 + 5 + 1 + 4);
    assert_eq!(&z[2..7], &[0x00, 0xFA, 0xFF, 0x05, 0x00]);
    assert_eq!(&z[65537..65542], &[0x01, 0x01, 0x00, 0xFE, 0xFF]);
    assert_eq!(inflate(&z), data);
}

#[test]
fn several_blocks_round_trip() {
    let data: Vec<u8> = (0..200_000u32).map(|i| (i * 7 % 256) as u8).collect();
    let z = fake_compress(&data);
    assert_eq!(z.len(), 2 + 5 * 4 + 200_000 + 4);
    assert_eq!(inflate(&z), data);
}

#[test]
fn compress_matches_fake_compress() {
    let data: Vec<u8> = (0..1000u32).map(|i| i as u8).collect();
    assert_eq!(compress(&data), fake_compress(&data));
    assert_eq!(compress(&[]), fake_compress(&[]));
}
