use std::io::Read;

use rusty_png::pardeflate::{
    append_prefix, block_count, compress_block, compress_parallel, deflate_serial,
    zlib_header, PAR_MIN_BLOCK,
};
use rusty_png::split::block_ranges;

fn roundtrip(data: &[u8], stride: usize, threads: usize) {
    let z = compress_parallel(data, stride, 6, threads).expect("compress");
    let mut d = flate2::read::ZlibDecoder::new(&z[..]);
    let mut back = Vec::new();
    d.read_to_end(&mut back).expect("the stream must be valid zlib");
    assert_eq!(back, data, "threads={threads}: round-trip mismatch");
}

fn inflate_raw(bytes: &[u8]) -> Vec<u8> {
    let mut d = flate2::read::DeflateDecoder::new(bytes);
    let mut back = Vec::new();
    d.read_to_end(&mut back).expect("the stream must be valid raw DEFLATE");
    back
}

fn sample(stride: usize, rows: usize) -> Vec<u8> {
    let mut data = Vec::with_capacity(stride * rows);
    for r in 0..rows {
        data.push(1u8);
        for i in 1..stride {
            data.push(((r * 31 + i * 7) % 251) as u8);
        }
    }
    data
}

/// The whole point: a split stream must still be ONE valid zlib stream that
/// any decoder reads back byte-for-byte.
#[test]
fn parallel_stream_is_valid_zlib_and_lossless() {
    let stride = 4096;
    let rows = 900; // ~3.7 MB, enough for several blocks
    let data = sample(stride, rows);
    for threads in [1usize, 2, 3, 4, 8] {
        roundtrip(&data, stride, threads);
    }
}

/// Small inputs must NOT be split — that is where the size penalty lives.
#[test]
fn small_inputs_stay_serial() {
    assert_eq!(block_count(1024, 8), 1);
    assert_eq!(block_count(PAR_MIN_BLOCK, 8), 1, "one block's worth is not splittable");
    assert_eq!(block_count(2 * PAR_MIN_BLOCK, 8), 2);
    assert_eq!(block_count(64 * PAR_MIN_BLOCK, 8), 8, "capped by the thread budget");
    assert_eq!(block_count(64 * PAR_MIN_BLOCK, 1), 1, "single thread never splits");
}

#[test]
fn block_count_edges() {
    assert_eq!(block_count(0, 0), 1);
    assert_eq!(block_count(2 * PAR_MIN_BLOCK - 1, 8), 1);
    assert_eq!(block_count(3 * PAR_MIN_BLOCK - 1, 8), 2);
    assert_eq!(block_count(5 * PAR_MIN_BLOCK, 3), 3);
    assert_eq!(block_count(5 * PAR_MIN_BLOCK, 0), 1);
    assert_eq!(block_count(usize::MAX, usize::MAX), usize::MAX / PAR_MIN_BLOCK);
}

#[test]
fn zlib_header_per_level() {
    let expect = [
        (0u32, [0x78u8, 0x01u8]),
        (1, [0x78, 0x01]),
        (2, [0x78, 0x5e]),
        (5, [0x78, 0x5e]),
        (6, [0x78, 0x9c]),
        (7, [0x78, 0xda]),
        (9, [0x78, 0xda]),
        (u32::MAX, [0x78, 0xda]),
    ];
    for (level, h) in expect {
        assert_eq!(zlib_header(level), h, "level {level}");
        let word = (h[0] as u32) * 256 + h[1] as u32;
        assert_eq!(word % 31, 0, "level {level}: check bits");
    }
}

#[test]
fn block_ranges_cut_on_rows() {
    let m = PAR_MIN_BLOCK;
    // Full-size rows: 5 rows of 1 MiB in 3 blocks of 2, 2 and 1 rows.
    assert_eq!(block_ranges(5 * m, m, 3), vec![(0, 2 * m), (2 * m, 4 * m), (4 * m, 5 * m)]);
    // Four blocks asked, but two rows each already cover the five rows in three.
    assert_eq!(block_ranges(5 * m, m, 4), vec![(0, 2 * m), (2 * m, 4 * m), (4 * m, 5 * m)]);
    assert_eq!(block_ranges(12 * m, 3 * m, 1), vec![(0, 12 * m)]);
    // Trailing bytes that do not make a whole row are not covered.
    assert_eq!(block_ranges(3 * m + 5, m, 3), vec![(0, m), (m, 2 * m), (2 * m, 3 * m)]);
    assert_eq!(block_ranges(2, 3, 2), vec![]);
    assert_eq!(block_ranges(0, 1, 5), vec![]);
}

#[test]
fn block_ranges_merge_a_short_tail() {
    // The even cut of five 2-byte rows into three blocks leaves a 2-byte tail;
    // it joins the block before it.
    assert_eq!(block_ranges(10, 2, 3), vec![(0, 4), (4, 10)]);
    assert_eq!(block_ranges(11, 3, 3), vec![(0, 3), (3, 9)]);
    assert_eq!(block_ranges(12, 3, 2), vec![(0, 12)]);
    // 2,097,153 bytes of 3-byte rows on 2 threads: the even cut would leave
    // a last block of 1,048,575 bytes, so the input stays in one block.
    let len = 2_097_153;
    let n = block_count(len, 2);
    assert_eq!(n, 2);
    assert_eq!(block_ranges(len, 3, n), vec![(0, len)]);
}

#[test]
fn split_blocks_are_all_full_size() {
    let len = 3 * PAR_MIN_BLOCK + 1;
    let n = block_count(len, 8);
    assert_eq!(n, 3);
    let ranges = block_ranges(len, 1, n);
    // The even cut would end in a block of PAR_MIN_BLOCK - 1 bytes; it is
    // merged into the one before.
    assert_eq!(ranges, vec![(0, PAR_MIN_BLOCK + 1), (PAR_MIN_BLOCK + 1, len)]);
    for (i, &(a, b)) in ranges.iter().enumerate() {
        assert!(b - a >= PAR_MIN_BLOCK);
        if i + 1 < ranges.len() {
            assert_eq!(b, ranges[i + 1].0);
        }
    }
}

#[test]
fn empty_final_block_is_the_two_byte_end() {
    assert_eq!(compress_block(&[], 6, true).unwrap(), vec![0x03, 0x00]);
}

#[test]
fn equal_arguments_give_equal_bytes() {
    let data = sample(1024, 2 * 1024 + 10);
    let a = compress_parallel(&data, 1024, 6, 2).unwrap();
    let b = compress_parallel(&data, 1024, 6, 2).unwrap();
    assert_eq!(a, b);
    let small = sample(64, 10);
    assert_eq!(
        compress_parallel(&small, 64, 6, 1).unwrap(),
        compress_parallel(&small, 64, 6, 8).unwrap()
    );
    let mut serial = vec![0x78, 0x9c];
    serial.extend_from_slice(&deflate_serial(&small, 6).unwrap());
    serial.extend_from_slice(&rusty_png::checksum::zlib_trailer(&small));
    assert_eq!(compress_parallel(&small, 64, 6, 8).unwrap(), serial);
}

#[test]
fn append_prefix_takes_the_front() {
    let mut out = vec![9u8];
    append_prefix(&mut out, &[1, 2, 3, 4], 2);
    assert_eq!(out, vec![9, 1, 2]);
    append_prefix(&mut out, &[5], 0);
    assert_eq!(out, vec![9, 1, 2]);
}

#[test]
fn compressed_blocks_concatenate_into_one_raw_stream() {
    let data = sample(512, 300);
    let (a, b) = data.split_at(512 * 120);
    let first = compress_block(a, 6, false).expect("first block");
    let second = compress_block(b, 6, true).expect("last block");
    assert_eq!(inflate_raw(&second), b);
    let mut joined = first.clone();
    joined.extend_from_slice(&second);
    assert_eq!(inflate_raw(&joined), data);
}

#[test]
fn compress_block_of_nothing() {
    let last = compress_block(&[], 6, true).expect("empty block");
    assert_eq!(inflate_raw(&last), Vec::<u8>::new());
    let full = compress_block(&[], 0, false).expect("empty full-flushed block");
    let mut joined = full.clone();
    joined.extend_from_slice(&compress_block(b"abc", 0, true).unwrap());
    assert_eq!(inflate_raw(&joined), b"abc".to_vec());
}

#[test]
fn serial_deflate_roundtrips_at_every_level() {
    let data = sample(100, 50);
    for level in 0..=9u32 {
        let z = deflate_serial(&data, level).expect("serial deflate");
        assert_eq!(inflate_raw(&z), data, "level {level}");
    }
}

#[test]
fn small_stream_is_framed() {
    let data = b"Wikipedia".to_vec();
    let z = compress_parallel(&data, 1, 6, 8).expect("compress");
    assert_eq!(&z[..2], &[0x78, 0x9c]);
    assert_eq!(&z[z.len() - 4..], &0x11E6_0398u32.to_be_bytes());
    let body = &z[2..z.len() - 4];
    assert_eq!(inflate_raw(body), data);
    let mut d = flate2::read::ZlibDecoder::new(&z[..]);
    let mut back = Vec::new();
    d.read_to_end(&mut back).unwrap();
    assert_eq!(back, data);
}

#[test]
fn empty_input_is_a_valid_stream() {
    let z = compress_parallel(&[], 4, 1, 4).expect("compress");
    assert_eq!(&z[..2], &[0x78, 0x01]);
    assert_eq!(&z[z.len() - 4..], &[0, 0, 0, 1]);
    let mut d = flate2::read::ZlibDecoder::new(&z[..]);
    let mut back = Vec::new();
    d.read_to_end(&mut back).unwrap();
    assert!(back.is_empty());
}

#[test]
fn split_stream_is_header_blocks_trailer() {
    let stride = 1024;
    let data = sample(stride, 2 * 1024 + 10);
    let z = compress_parallel(&data, stride, 9, 2).expect("compress");
    assert_eq!(&z[..2], &[0x78, 0xda]);
    let trailer = rusty_png::checksum::zlib_trailer(&data);
    assert_eq!(&z[z.len() - 4..], &trailer);
    let ranges = block_ranges(data.len(), stride, block_count(data.len(), 2));
    assert_eq!(ranges.len(), 2);
    let mut body = Vec::new();
    for (i, &(a, b)) in ranges.iter().enumerate() {
        body.extend_from_slice(&compress_block(&data[a..b], 9, i + 1 == ranges.len()).unwrap());
    }
    assert_eq!(&z[2..z.len() - 4], &body[..]);
    assert_eq!(inflate_raw(&body), data);
}
