use rusty_png::checksum::{u32_to_be, zlib_trailer, ADLER_BASE};

#[test]
fn adler32_known_values() {
    assert_eq!(zlib_trailer(b"Wikipedia"), 0x11E6_0398u32.to_be_bytes());
    assert_eq!(zlib_trailer(b"Adler-32"), 204_735_099u32.to_be_bytes());
    assert_eq!(zlib_trailer(b"rust is pretty cool, man"), 1_921_255_656u32.to_be_bytes());
    assert_eq!(zlib_trailer(b""), [0, 0, 0, 1]);
    assert_eq!(zlib_trailer(&[0]), [0, 1, 0, 1]);
}

#[test]
fn adler32_wraps_modulo_base() {
    let data = vec![0xffu8; 100_000];
    let mut a: u64 = 1;
    let mut b: u64 = 0;
    for &x in &data {
        a = (a + x as u64) % ADLER_BASE as u64;
        b = (b + a) % ADLER_BASE as u64;
    }
    let expect = ((b << 16) | a) as u32;
    assert_eq!(zlib_trailer(&data), expect.to_be_bytes());
}

#[test]
fn big_endian_split() {
    assert_eq!(u32_to_be(0x0102_0304), [1, 2, 3, 4]);
    assert_eq!(u32_to_be(0), [0, 0, 0, 0]);
    assert_eq!(u32_to_be(u32::MAX), [0xff; 4]);
}
