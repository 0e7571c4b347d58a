use std::cell::RefCell;

use miniz_oxide::adler::update_adler32;
use miniz_oxide::compressor::{compress, compress_to_output, CallbackFunc, CompressorOxide};
use miniz_oxide::flags::{TDEFLFlush, TDEFLStatus};

// A small inflater, to check what the compressor writes.

struct BitReader<'a> {
    data: &'a [u8],
    pos: usize,
    bit: u32,
}

impl<'a> BitReader<'a> {
    fn new(data: &'a [u8]) -> Self {
        BitReader { data, pos: 0, bit: 0 }
    }

    fn bit(&mut self) -> u32 {
        let b = (self.data[self.pos] >> self.bit) & 1;
        self.bit += 1;
        if self.bit == 8 {
            self.bit = 0;
            self.pos += 1;
        }
        b as u32
    }

    fn bits(&mut self, n: u32) -> u32 {
        let mut v = 0;
        for i in 0..n {
            v |= self.bit() << i;
        }
        v
    }

    fn align(&mut self) {
        if self.bit != 0 {
            self.bit = 0;
            self.pos += 1;
        }
    }
}

struct Huffman {
    counts: Vec<u16>,
    symbols: Vec<u16>,
}

impl Huffman {
    fn new(lengths: &[u8]) -> Huffman {
        let mut counts = vec![0u16; 16];
        for &l in lengths {
            counts[l as usize] += 1;
        }
        counts[0] = 0;
        let mut offs = vec![0u16; 16];
        for i in 1..16 {
            offs[i] = offs[i - 1] + counts[i - 1];
        }
        let mut symbols = vec![0u16; lengths.len()];
        for (s, &l) in lengths.iter().enumerate() {
            if l != 0 {
                symbols[offs[l as usize] as usize] = s as u16;
                offs[l as usize] += 1;
            }
        }
        Huffman { counts, symbols }
    }

    fn decode(&self, r: &mut BitReader) -> u16 {
        let mut code: i32 = 0;
        let mut first: i32 = 0;
        let mut index: i32 = 0;
        for len in 1..16 {
            code |= r.bit() as i32;
            let count = self.counts[len] as i32;
            if code - count < first {
                return self.symbols[(index + (code - first)) as usize];
            }
            index += count;
            first += count;
            first <<= 1;
            code <<= 1;
        }
        panic!("bad code");
    }
}

const LEN_BASE: [u16; 29] = [
    3, 4, 5, 6, 7, 8, 9, 10, 11, 13, 15, 17, 19, 23, 27, 31, 35, 43, 51, 59, 67, 83, 99, 115, 131, 163, 195, 227, 258,
];
const LEN_EXTRA: [u32; 29] = [0, 0, 0, 0, 0, 0, 0, 0, 1, 1, 1, 1, 2, 2, 2, 2, 3, 3, 3, 3, 4, 4, 4, 4, 5, 5, 5, 5, 0];
const DIST_BASE: [u16; 30] = [
    1, 2, 3, 4, 5, 7, 9, 13, 17, 25, 33, 49, 65, 97, 129, 193, 257, 385, 513, 769, 1025, 1537, 2049, 3073, 4097,
    6145, 8193, 12289, 16385, 24577,
];
const DIST_EXTRA: [u32; 30] = [
    0, 0, 0, 0, 1, 1, 2, 2, 3, 3, 4, 4, 5, 5, 6, 6, 7, 7, 8, 8, 9, 9, 10, 10, 11, 11, 12, 12, 13, 13,
];

fn inflate_block(r: &mut BitReader, out: &mut Vec<u8>, lit: &Huffman, dist: &Huffman, matches: &mut Vec<(usize, usize)>) {
    loop {
        let sym = lit.decode(r);
        if sym < 256 {
            out.push(sym as u8);
        } else if sym == 256 {
            return;
        } else {
            let s = (sym - 257) as usize;
            let len = LEN_BASE[s] as usize + r.bits(LEN_EXTRA[s]) as usize;
            let ds = dist.decode(r) as usize;
            let d = DIST_BASE[ds] as usize + r.bits(DIST_EXTRA[ds]) as usize;
            assert!(d <= out.len(), "distance beyond the start");
            matches.push((len, d));
            for _ in 0..len {
                let b = out[out.len() - d];
                out.push(b);
            }
        }
    }
}

/// Inflates a raw deflate stream; returns the data and the number of bytes read.
fn inflate(data: &[u8]) -> (Vec<u8>, usize) {
    let (out, used, _) = inflate_with_matches(data);
    (out, used)
}

/// Inflates a raw deflate stream; also returns each match as (length, distance).
fn inflate_with_matches(data: &[u8]) -> (Vec<u8>, usize, Vec<(usize, usize)>) {
    let mut r = BitReader::new(data);
    let mut out = Vec::new();
    let mut matches = Vec::new();
    loop {
        let last = r.bits(1);
        let kind = r.bits(2);
        match kind {
            0 => {
                r.align();
                let len = r.bits(16);
                let nlen = r.bits(16);
                assert_eq!(len, !nlen & 0xFFFF);
                for _ in 0..len {
                    out.push(r.bits(8) as u8);
                }
            }
            1 => {
                let mut l = [0u8; 288];
                for i in 0..288 {
                    l[i] = if i < 144 { 8 } else if i < 256 { 9 } else if i < 280 { 7 } else { 8 };
                }
                let lit = Huffman::new(&l);
                let dist = Huffman::new(&[5u8; 30]);
                inflate_block(&mut r, &mut out, &lit, &dist, &mut matches);
            }
            2 => {
                let hlit = r.bits(5) as usize + 257;
                let hdist = r.bits(5) as usize + 1;
                let hclen = r.bits(4) as usize + 4;
                let order = [16, 17, 18, 0, 8, 7, 9, 6, 10, 5, 11, 4, 12, 3, 13, 2, 14, 1, 15];
                let mut cl = [0u8; 19];
                for i in 0..hclen {
                    cl[order[i]] = r.bits(3) as u8;
                }
                let clh = Huffman::new(&cl);
                let mut lengths = Vec::new();
                while lengths.len() < hlit + hdist {
                    let sym = clh.decode(&mut r);
                    match sym {
                        0..=15 => lengths.push(sym as u8),
                        16 => {
                            let prev = *lengths.last().unwrap();
                            for _ in 0..3 + r.bits(2) {
                                lengths.push(prev);
                            }
                        }
                        17 => {
                            for _ in 0..3 + r.bits(3) {
                                lengths.push(0);
                            }
                        }
                        _ => {
                            for _ in 0..11 + r.bits(7) {
                                lengths.push(0);
                            }
                        }
                    }
                }
                assert_eq!(lengths.len(), hlit + hdist);
                let lit = Huffman::new(&lengths[..hlit]);
                let dist = Huffman::new(&lengths[hlit..]);
                inflate_block(&mut r, &mut out, &lit, &dist, &mut matches);
            }
            _ => panic!("bad block type"),
        }
        if last == 1 {
            r.align();
            return (out, r.pos, matches);
        }
    }
}

/// Inflates a zlib stream and checks its header and checksum.
fn inflate_zlib(data: &[u8]) -> Vec<u8> {
    assert_eq!(data[0], 0x78);
    assert_eq!(data[1], 0x01);
    let (out, used) = inflate(&data[2..]);
    let tail = &data[2 + used..];
    assert_eq!(tail.len(), 4);
    let adler = u32::from_be_bytes([tail[0], tail[1], tail[2], tail[3]]);
    assert_eq!(adler, update_adler32(1, &out));
    out
}

fn compress_all(flags: u32, input: &[u8]) -> Vec<u8> {
    let mut d = CompressorOxide::new(flags);
    let mut out = vec![0u8; input.len() * 2 + 1024];
    let (status, in_pos, out_pos) = compress(&mut d, input, &mut out, TDEFLFlush::Finish);
    assert_eq!(status, TDEFLStatus::Done);
    assert_eq!(in_pos, input.len());
    out.truncate(out_pos);
    out
}

fn sample_text() -> Vec<u8> {
    let mut v = Vec::new();
    for i in 0..400 {
        v.extend_from_slice(b"The quick brown fox jumps over the lazy dog. ");
        v.extend_from_slice(format!("line {} of the sample\n", i % 37).as_bytes());
    }
    v
}

fn sample_noise(n: usize) -> Vec<u8> {
    let mut x: u32 = 12345;
    let mut v = Vec::with_capacity(n);
    for _ in 0..n {
        x = x.wrapping_mul(1103515245).wrapping_add(12345);
        v.push((x >> 16) as u8);
    }
    v
}

fn check_round_trip(flags: u32, input: &[u8]) {
    let out = compress_all(flags | 0x1000, input);
    assert_eq!(inflate_zlib(&out), input);
    let out = compress_all(flags, input);
    assert_eq!(inflate(&out).0, input);
}

#[test]
fn round_trip_default_level() {
    check_round_trip(128, &sample_text());
}

#[test]
fn round_trip_fast_level() {
    check_round_trip(1 | 0x4000, &sample_text());
    check_round_trip(1 | 0x4000, &sample_noise(10000));
}

#[test]
fn round_trip_best_level() {
    check_round_trip(1500, &sample_text());
}

#[test]
fn round_trip_raw_blocks() {
    check_round_trip(0x4000 | 0x8_0000, &sample_text());
}

#[test]
fn round_trip_static_blocks() {
    check_round_trip(128 | 0x4_0000, &sample_text());
}

#[test]
fn round_trip_rle_and_filtered() {
    let mut runs = vec![7u8; 1000];
    runs.extend_from_slice(&sample_text()[..500]);
    runs.extend(vec![0u8; 700]);
    check_round_trip(128 | 0x1_0000, &runs);
    check_round_trip(128 | 0x2_0000, &runs);
}

#[test]
fn matches_obey_the_filter_and_run_flags() {
    let mut input = vec![7u8; 1000];
    input.extend_from_slice(&sample_text()[..2000]);
    input.extend(vec![0u8; 700]);
    let (out, _, matches) = inflate_with_matches(&compress_all(128 | 0x1_0000, &input));
    assert_eq!(out, input);
    assert!(!matches.is_empty());
    assert!(matches.iter().all(|&(_, d)| d == 1));
    let (out, _, matches) = inflate_with_matches(&compress_all(128 | 0x2_0000, &input));
    assert_eq!(out, input);
    assert!(!matches.is_empty());
    assert!(matches.iter().all(|&(l, _)| l >= 6));
    let (_, _, matches) = inflate_with_matches(&compress_all(128, &input));
    assert!(matches.iter().any(|&(_, d)| d > 1));
}

#[test]
fn huffman_only_records_no_matches() {
    let input = sample_text();
    let (out, _, matches) = inflate_with_matches(&compress_all(0, &input));
    assert_eq!(out, input);
    assert!(matches.is_empty());
}

#[test]
fn forced_static_blocks_are_never_stored() {
    let input = sample_noise(3000);
    let out = compress_all(128 | 0x4_0000, &input);
    // The one and final block: bit 0 set, block type 1 (fixed codes) in bits 1 and 2.
    assert_eq!(out[0] & 0b111, 0b011);
    assert_eq!(inflate(&out).0, input);
    // Without the flag the incompressible block is stored.
    let out = compress_all(128, &input);
    assert_eq!(out[0] & 0b111, 0b001);
}

#[test]
fn three_byte_matches_far_back_are_not_recorded() {
    let mut input = b"xyz".to_vec();
    input.extend(sample_noise(9000));
    input.extend_from_slice(b"xyz");
    input.extend(sample_noise(50));
    let (out, _, matches) = inflate_with_matches(&compress_all(128, &input));
    assert_eq!(out, input);
    assert!(matches.iter().all(|&(l, d)| !(l == 3 && d >= 8192)));
}

#[test]
fn greedy_parsing_in_pieces_round_trips() {
    let input = sample_text();
    let mut d = CompressorOxide::new(128 | 0x4000);
    let mut result = Vec::new();
    let mut pos = 0;
    loop {
        let end = std::cmp::min(pos + 333, input.len());
        let flush = if end == input.len() { TDEFLFlush::Finish } else { TDEFLFlush::NoFlush };
        let mut out = vec![0u8; 4096];
        let (status, in_pos, out_pos) = compress(&mut d, &input[pos..end], &mut out, flush);
        assert_ne!(status, TDEFLStatus::BadParam);
        result.extend_from_slice(&out[..out_pos]);
        pos += in_pos;
        if status == TDEFLStatus::Done {
            break;
        }
    }
    assert_eq!(inflate(&result).0, input);
    // Greedy parsing finds matches too.
    let (_, _, matches) = inflate_with_matches(&result);
    assert!(!matches.is_empty());
}

#[test]
fn compress_writes_only_what_it_reports() {
    let input = sample_text();
    let mut d = CompressorOxide::new(128);
    let mut out = vec![0xAAu8; input.len() * 2 + 1024];
    let (status, in_pos, out_pos) = compress(&mut d, &input, &mut out, TDEFLFlush::Finish);
    assert_eq!(status, TDEFLStatus::Done);
    assert_eq!(in_pos, input.len());
    assert!(out[out_pos..].iter().all(|&b| b == 0xAA));
    assert_eq!(inflate(&out[..out_pos]).0, input);
    // A refused call leaves the buffer as it was.
    let before = out.clone();
    let (status, in_pos, out_pos) = compress(&mut d, &input, &mut out, TDEFLFlush::NoFlush);
    assert_eq!((status, in_pos, out_pos), (TDEFLStatus::BadParam, 0, 0));
    assert_eq!(out, before);
}

#[test]
fn round_trip_huffman_only() {
    check_round_trip(0, &sample_text());
}

#[test]
fn round_trip_empty_and_tiny() {
    check_round_trip(128, b"");
    check_round_trip(128, b"a");
    check_round_trip(1 | 0x4000, b"");
    check_round_trip(1 | 0x4000, b"ab");
}

#[test]
fn round_trip_noise_many_blocks() {
    let data = sample_noise(200_000);
    check_round_trip(128, &data);
}

#[test]
fn round_trip_long_text_many_blocks() {
    let mut data = Vec::new();
    for _ in 0..20 {
        data.extend_from_slice(&sample_text());
    }
    check_round_trip(128, &data);
    check_round_trip(1 | 0x4000, &data);
}

#[test]
fn compress_in_pieces_with_small_output() {
    let input = sample_text();
    let mut d = CompressorOxide::new(128 | 0x1000);
    let mut result = Vec::new();
    let mut pos = 0;
    loop {
        let end = std::cmp::min(pos + 1000, input.len());
        let flush = if end == input.len() { TDEFLFlush::Finish } else { TDEFLFlush::NoFlush };
        let mut out = [0u8; 100];
        let (status, in_pos, out_pos) = compress(&mut d, &input[pos..end], &mut out, flush);
        assert_ne!(status, TDEFLStatus::BadParam);
        result.extend_from_slice(&out[..out_pos]);
        pos += in_pos;
        if status == TDEFLStatus::Done {
            break;
        }
    }
    assert_eq!(pos, input.len());
    assert_eq!(inflate_zlib(&result), input);
    assert_eq!(d.adler32(), update_adler32(1, &input));
}

#[test]
fn sync_flush_ends_on_a_byte_boundary() {
    let input = sample_text();
    let mut d = CompressorOxide::new(128);
    let mut out = vec![0u8; input.len() * 2];
    let (status, in_pos, out_pos) = compress(&mut d, &input[..3000], &mut out, TDEFLFlush::Sync);
    assert_eq!(status, TDEFLStatus::Okay);
    assert_eq!(in_pos, 3000);
    // a sync flush ends with an empty stored block
    assert_eq!(&out[out_pos - 4..out_pos], &[0, 0, 0xFF, 0xFF]);
    let mut all = out[..out_pos].to_vec();
    let (status, _, out_pos2) = compress(&mut d, &input[3000..], &mut out, TDEFLFlush::Finish);
    assert_eq!(status, TDEFLStatus::Done);
    all.extend_from_slice(&out[..out_pos2]);
    assert_eq!(inflate(&all).0, input);
}

#[test]
fn call_after_finish_without_finish_is_refused() {
    let mut d = CompressorOxide::new(128);
    let mut out = vec![0u8; 256];
    let (status, _, _) = compress(&mut d, b"abc", &mut out, TDEFLFlush::Finish);
    assert_eq!(status, TDEFLStatus::Done);
    let (status, in_pos, out_pos) = compress(&mut d, b"abc", &mut out, TDEFLFlush::NoFlush);
    assert_eq!((status, in_pos, out_pos), (TDEFLStatus::BadParam, 0, 0));
    assert_eq!(d.prev_return_status(), TDEFLStatus::BadParam);
    // once refused, every later call is refused
    let (status, _, _) = compress(&mut d, b"", &mut out, TDEFLFlush::Finish);
    assert_eq!(status, TDEFLStatus::BadParam);
}

#[test]
fn compressor_getters() {
    let d = CompressorOxide::new(128 | 0x1000);
    assert_eq!(d.flags(), 128 | 0x1000);
    assert_eq!(d.adler32(), 1);
    assert_eq!(d.prev_return_status(), TDEFLStatus::Okay);
}

#[test]
fn adler32_of_known_text() {
    assert_eq!(update_adler32(1, b"Wikipedia"), 0x11E60398);
    assert_eq!(update_adler32(1, b""), 1);
    // updating in two parts gives the checksum of the whole
    let a = update_adler32(1, b"Wiki");
    assert_eq!(update_adler32(a, b"pedia"), 0x11E60398);
}

#[test]
fn compress_to_output_hands_out_blocks() {
    let input = sample_text();
    let collected = RefCell::new(Vec::new());
    let mut d = CompressorOxide::new(128 | 0x1000);
    let cb = CallbackFunc {
        put_buf_func: |b: &[u8]| {
            collected.borrow_mut().extend_from_slice(b);
            true
        },
    };
    let (status, in_pos) = compress_to_output(&mut d, &input, cb, TDEFLFlush::Finish);
    assert_eq!(status, TDEFLStatus::Done);
    assert_eq!(in_pos, input.len());
    assert_eq!(inflate_zlib(&collected.borrow()), input);
}

#[test]
fn compress_to_output_reports_a_failing_sink() {
    let input = sample_text();
    let mut d = CompressorOxide::new(128);
    let cb = CallbackFunc { put_buf_func: |_b: &[u8]| false };
    let (status, _) = compress_to_output(&mut d, &input, cb, TDEFLFlush::Finish);
    assert_eq!(status, TDEFLStatus::PutBufFailed);
    assert_eq!(d.prev_return_status(), TDEFLStatus::PutBufFailed);
}

#[test]
fn one_byte_in_a_fixed_block_has_the_fixed_codes() {
    // Final bit, block type 01, the fixed 8-bit code of 'a', the 7-bit end of block.
    assert_eq!(compress_all(128 | 0x4_0000, b"a"), vec![0x4b, 0x04, 0x00]);
}

#[test]
fn raw_block_stores_the_input() {
    // Final bit, block type 00, padding, the length and its complement, the bytes.
    assert_eq!(
        compress_all(128 | 0x8_0000, b"abc"),
        vec![0x01, 0x03, 0x00, 0xfc, 0xff, 0x61, 0x62, 0x63]
    );
}
