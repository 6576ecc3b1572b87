use vxdboot::w4::{ds_count, ds_count1, ds_decode, ds_depth, ds_raw_byte, ds_read_bits,
    read_vec_bit, DSToken};
use vxdboot::LoaderError;

/// Builds a bitstream in the decoder's own order: bits pushed least
/// significant first within each byte.
struct BitWriter {
    bytes: Vec<u8>,
    used: usize,
}

impl BitWriter {
    fn new() -> Self {
        BitWriter { bytes: Vec::new(), used: 0 }
    }

    fn push_bit(&mut self, bit: bool) {
        if self.used % 8 == 0 {
            self.bytes.push(0);
        }
        if bit {
            let n = self.bytes.len();
            self.bytes[n - 1] |= 1 << (self.used % 8);
        }
        self.used += 1;
    }

    fn push_bits(&mut self, value: u32, count: usize) {
        for i in 0..count {
            self.push_bit((value >> i) & 1 == 1);
        }
    }

    fn push_count(&mut self, count: u16) {
        let bases: [u16; 9] = [2, 3, 5, 9, 17, 33, 65, 129, 257];
        if count == 2 {
            self.push_bit(true);
            return;
        }
        for p in 1..9usize {
            let lo = bases[p];
            let hi = bases[p] + (1 << p) - 1;
            if lo <= count && count <= hi {
                for _ in 0..p {
                    self.push_bit(false);
                }
                self.push_bit(true);
                self.push_bits((count - lo) as u32, p);
                return;
            }
        }
        panic!("count out of range");
    }

    fn push_literal(&mut self, byte: u8) {
        let high = byte >> 7 & 1 == 1;
        self.push_bit(high);
        self.push_bit(!high);
        self.push_bits(byte as u32, 7);
    }

    fn push_backref(&mut self, depth: u16, count: u16) {
        if depth >= 1 && depth <= 63 {
            self.push_bit(false);
            self.push_bit(false);
            self.push_bits(depth as u32, 6);
        } else if depth <= 319 {
            self.push_bit(true);
            self.push_bit(true);
            self.push_bit(false);
            self.push_bits((depth - 64) as u32, 8);
        } else if depth <= 4414 {
            self.push_bit(true);
            self.push_bit(true);
            self.push_bit(true);
            self.push_bits((depth - 320) as u32, 12);
        } else {
            panic!("depth out of range");
        }
        self.push_count(count);
    }

    fn push_sector_break(&mut self) {
        self.push_bit(true);
        self.push_bit(true);
        self.push_bit(true);
        self.push_bits(4415 - 320, 12);
    }

    fn push_end(&mut self) {
        self.push_bit(false);
        self.push_bit(false);
        self.push_bits(0, 6);
    }
}

#[test]
fn read_vec_bit_walks_lsb_first() {
    let input: Vec<u8> = vec![0b0000_0101, 0b1000_0000];
    let mut cursor: usize = 0;
    assert!(read_vec_bit(&input, &mut cursor));
    assert!(!read_vec_bit(&input, &mut cursor));
    assert!(read_vec_bit(&input, &mut cursor));
    for _ in 3..15 {
        assert!(!read_vec_bit(&input, &mut cursor));
    }
    assert!(read_vec_bit(&input, &mut cursor));
    assert_eq!(cursor, 16);
}

#[test]
fn raw_byte_reassembles_seven_bits() {
    // Seven bits of 0x41 = 100_0001, least significant first, high bit
    // supplied separately.
    let mut w = BitWriter::new();
    w.push_bits(0x41, 7);
    let mut cursor: usize = 0;
    assert_eq!(ds_raw_byte(&w.bytes, &mut cursor, false), 0x41);
    let mut cursor2: usize = 0;
    assert_eq!(ds_raw_byte(&w.bytes, &mut cursor2, true), 0xC1);
}

#[test]
fn depth_field_adds_base() {
    let mut w = BitWriter::new();
    w.push_bits(200, 8);
    let mut cursor: usize = 0;
    assert_eq!(ds_depth(&w.bytes, &mut cursor, 64, 8), 264);
    assert_eq!(cursor, 8);
}

#[test]
fn count_extension_adds_base() {
    let mut w = BitWriter::new();
    w.push_bits(6, 3);
    let mut cursor: usize = 0;
    assert_eq!(ds_count1(&w.bytes, &mut cursor, 9, 3), 15);
}

#[test]
fn count_bases_over_every_prefix_length() {
    // Prefix length p selects base {2,3,5,9,17,33,65,129,257}; the p extra
    // bits then span [base, base + 2^p - 1].
    let bases: [u16; 9] = [2, 3, 5, 9, 17, 33, 65, 129, 257];
    for p in 0..9usize {
        // All-zero extension bits: the low end of the range.
        let mut w = BitWriter::new();
        w.push_count(bases[p]);
        let mut cursor: usize = 0;
        assert_eq!(ds_count(&w.bytes, &mut cursor), Ok(bases[p]));
        assert_eq!(cursor, 1 + 2 * p);
        // All-one extension bits: the high end of the range.
        let hi = bases[p] + (1u16 << p) - 1;
        let mut w2 = BitWriter::new();
        w2.push_count(hi);
        let mut cursor2: usize = 0;
        assert_eq!(ds_count(&w2.bytes, &mut cursor2), Ok(hi));
    }
}

#[test]
fn count_nine_zeros_reads_as_zero() {
    let mut w = BitWriter::new();
    w.push_bits(0, 9);
    let mut cursor: usize = 0;
    assert_eq!(ds_count(&w.bytes, &mut cursor), Ok(0));
}

#[test]
fn count_runs_out_of_bits() {
    let input: Vec<u8> = vec![];
    let mut cursor: usize = 0;
    assert_eq!(ds_count(&input, &mut cursor), Err(LoaderError::Truncated));
}

#[test]
fn token_reader_sees_each_kind() {
    let mut w = BitWriter::new();
    w.push_literal(0x5A);
    w.push_backref(3, 4);
    w.push_backref(100, 2);
    w.push_backref(1000, 17);
    w.push_sector_break();
    w.push_end();
    let mut cursor: usize = 0;
    assert_eq!(ds_read_bits(&w.bytes, &mut cursor), Ok(DSToken::Raw(0x5A)));
    assert_eq!(ds_read_bits(&w.bytes, &mut cursor), Ok(DSToken::DepthCount(3, 4)));
    assert_eq!(ds_read_bits(&w.bytes, &mut cursor), Ok(DSToken::DepthCount(100, 2)));
    assert_eq!(ds_read_bits(&w.bytes, &mut cursor), Ok(DSToken::DepthCount(1000, 17)));
    assert_eq!(ds_read_bits(&w.bytes, &mut cursor), Ok(DSToken::SectorBreak));
    assert_eq!(ds_read_bits(&w.bytes, &mut cursor), Ok(DSToken::End));
}

#[test]
fn token_zero_count_is_fatal() {
    let mut w = BitWriter::new();
    // A short back-reference whose count field is the illegal nine-zero
    // prefix.
    w.push_bit(false);
    w.push_bit(false);
    w.push_bits(1, 6);
    w.push_bits(0, 9);
    let mut cursor: usize = 0;
    assert_eq!(ds_read_bits(&w.bytes, &mut cursor), Err(LoaderError::InvalidCount));
}

#[test]
fn literal_round_trip() {
    let data: Vec<u8> = vec![0x00, 0x01, 0x7F, 0x80, 0xAA, 0x55, 0xFF, 0x42];
    let mut w = BitWriter::new();
    for &b in &data {
        w.push_literal(b);
    }
    w.push_end();
    assert_eq!(ds_decode(&w.bytes), Ok(data));
}

#[test]
fn short_backref_round_trip() {
    let mut w = BitWriter::new();
    w.push_literal(b'a');
    w.push_literal(b'b');
    w.push_backref(2, 4);
    w.push_end();
    assert_eq!(ds_decode(&w.bytes), Ok(b"ababab".to_vec()));
}

#[test]
fn overlapping_backref_replicates() {
    let mut w = BitWriter::new();
    w.push_literal(b'x');
    w.push_backref(1, 5);
    w.push_end();
    assert_eq!(ds_decode(&w.bytes), Ok(b"xxxxxx".to_vec()));
}

#[test]
fn mid_depth_backref_round_trip() {
    let mut w = BitWriter::new();
    let mut expected: Vec<u8> = Vec::new();
    for i in 0..64u8 {
        w.push_literal(i);
        expected.push(i);
    }
    w.push_backref(64, 3);
    expected.extend_from_slice(&[0, 1, 2]);
    w.push_end();
    assert_eq!(ds_decode(&w.bytes), Ok(expected));
}

#[test]
fn long_depth_backref_round_trip() {
    let mut w = BitWriter::new();
    let mut expected: Vec<u8> = Vec::new();
    for i in 0..320u32 {
        let b = (i % 251) as u8;
        w.push_literal(b);
        expected.push(b);
    }
    w.push_backref(320, 2);
    expected.extend_from_slice(&[0, 1]);
    w.push_end();
    assert_eq!(ds_decode(&w.bytes), Ok(expected));
}

#[test]
fn sector_break_emits_nothing() {
    let mut w = BitWriter::new();
    w.push_literal(b'a');
    w.push_sector_break();
    w.push_literal(b'b');
    w.push_end();
    assert_eq!(ds_decode(&w.bytes), Ok(b"ab".to_vec()));
}

#[test]
fn block_quota_stops_mid_stream() {
    // The first block's 8192 bytes are followed by more tokens; the decode
    // stops at the quota without reading them, wherever in a byte the
    // cursor stands.
    let mut w = BitWriter::new();
    w.push_literal(b'q');
    let mut produced: usize = 1;
    while produced < 8192 {
        let mut c = 8192 - produced;
        if c > 512 {
            c = 512;
        }
        if 8192 - produced - c == 1 {
            c -= 1;
        }
        w.push_backref(1, c as u16);
        produced += c;
    }
    // What follows the quota would change the output if it were read.
    w.push_literal(b'z');
    w.push_end();
    let out = ds_decode(&w.bytes).unwrap();
    assert_eq!(out.len(), 8192);
    assert!(out.iter().all(|&b| b == b'q'));
}

#[test]
fn empty_stream_is_truncated() {
    let input: Vec<u8> = vec![];
    assert_eq!(ds_decode(&input), Err(LoaderError::Truncated));
}

#[test]
fn backref_before_output_start_is_fatal() {
    let mut w = BitWriter::new();
    w.push_literal(b'a');
    w.push_backref(5, 2);
    w.push_end();
    assert_eq!(ds_decode(&w.bytes), Err(LoaderError::InvalidDepth));
}
