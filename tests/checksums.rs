use apng_writer::adler32::Adler32;
use apng_writer::crc32::Crc32;

#[test]
fn crc32_of_nothing_is_zero() {
    assert_eq!(Crc32::from(&[]).fin(), 0x0000_0000);
}

#[test]
fn crc32_check_value() {
    assert_eq!(Crc32::from(b"123456789").fin(), 0xCBF4_3926);
}

#[test]
fn crc32_updates_compose() {
    let mut crc = Crc32::new();
    crc.update(b"1234");
    crc.update(b"56789");
    assert_eq!(crc.fin(), 0xCBF4_3926);
}

#[test]
fn crc32_of_iend_type() {
    assert_eq!(Crc32::from(b"IEND").fin(), 0xAE42_6082);
}

#[test]
fn adler32_of_nothing_is_one() {
    assert_eq!(Adler32::new().fin(), 0x0000_0001);
    assert_eq!(Adler32::from(&[]).fin(), 0x0000_0001);
}

#[test]
fn adler32_of_wh() {
    // a = 1 + 87 + 104 = 192, b = 88 + 192 = 280
    assert_eq!(Adler32::from(b"Wh").fin(), 0x0118_00C0);
}

#[test]
fn adler32_of_wikipedia() {
    assert_eq!(Adler32::from(b"Wikipedia").fin(), 0x11E6_0398);
}

#[test]
fn adler32_updates_compose() {
    let mut a = Adler32::new();
    a.update(b"Wiki");
    a.update(b"pedia");
    assert_eq!(a.fin(), 0x11E6_0398);
}

#[test]
fn adler32_sums_wrap_at_modulus() {
    let data = vec![0xFFu8; 5553];
    let mut a: u64 = 1;
    let mut b: u64 = 0;
    for &x in &data {
        a = (a + x as u64) % 65521;
        b = (b + a) % 65521;
    }
    assert_eq!(Adler32::from(&data).fin() as u64, (b << 16) | a);
}
