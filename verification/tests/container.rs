use vxdboot::w4::{w4_chunk_get_offset, w4_to_w3};
use vxdboot::LoaderError;

/// Minimal bitstream builder, least significant bit of each byte first.
struct Bits {
    bytes: Vec<u8>,
    used: usize,
}

impl Bits {
    fn new() -> Self {
        Bits { bytes: Vec::new(), used: 0 }
    }

    fn push_bit(&mut self, bit: bool) {
        if self.used % 8 == 0 {
            self.bytes.push(0);
        }
        if bit {
            let n = self.bytes.len();
            self.bytes[n - 1] |= 1 << (self.used % 8);
        }
        self.used += 1;
    }

    fn push_bits(&mut self, value: u32, count: usize) {
        for i in 0..count {
            self.push_bit((value >> i) & 1 == 1);
        }
    }

    fn push_literal(&mut self, byte: u8) {
        let high = byte >> 7 & 1 == 1;
        self.push_bit(high);
        self.push_bit(!high);
        self.push_bits(byte as u32, 7);
    }

    fn push_end(&mut self) {
        self.push_bit(false);
        self.push_bit(false);
        self.push_bits(0, 6);
    }
}

fn put_le32(buf: &mut [u8], off: usize, v: u32) {
    buf[off] = v as u8;
    buf[off + 1] = (v >> 8) as u8;
    buf[off + 2] = (v >> 16) as u8;
    buf[off + 3] = (v >> 24) as u8;
}

fn put_le16(buf: &mut [u8], off: usize, v: u16) {
    buf[off] = v as u8;
    buf[off + 1] = (v >> 8) as u8;
}

#[test]
fn w3_container_passes_through_unchanged() {
    let wx: usize = 0x44;
    let mut input = vec![0u8; wx + 8];
    put_le32(&mut input, 0x3C, wx as u32);
    input[wx] = b'W';
    input[wx + 1] = b'3';
    for i in 2..8 {
        input[wx + i] = 0xA0 + i as u8;
    }
    let (out, off) = w4_to_w3(input.clone()).unwrap();
    assert_eq!(off, wx);
    assert_eq!(out, input[wx..].to_vec());
}

#[test]
fn w4_stored_chunk_copied_verbatim() {
    let wx: usize = 0x40;
    let data_off = wx + 16 + 8;  // one chunk entry plus the sentinel
    let mut input = vec![0u8; data_off + 8192];
    put_le32(&mut input, 0x3C, wx as u32);
    input[wx] = b'W';
    input[wx + 1] = b'4';
    put_le16(&mut input, wx + 6, 1);
    put_le32(&mut input, wx + 16, data_off as u32);
    put_le32(&mut input, wx + 20, (data_off + 8192) as u32);
    for i in 0..8192usize {
        input[data_off + i] = (i % 253) as u8;
    }
    let expected: Vec<u8> = input[data_off..data_off + 8192].to_vec();
    let (out, off) = w4_to_w3(input).unwrap();
    assert_eq!(off, wx);
    assert_eq!(out, expected);
}

#[test]
fn w4_other_length_goes_through_decoder() {
    let wx: usize = 0x40;
    let data_off = wx + 16 + 8;
    let mut stream = Bits::new();
    stream.push_literal(b'h');
    stream.push_literal(b'i');
    stream.push_end();
    let mut input = vec![0u8; data_off];
    put_le32(&mut input, 0x3C, wx as u32);
    input[wx] = b'W';
    input[wx + 1] = b'4';
    put_le16(&mut input, wx + 6, 1);
    put_le32(&mut input, wx + 16, data_off as u32);
    // The table-derived length is the stream's length, not 8192.
    put_le32(&mut input, wx + 20, (data_off + stream.bytes.len()) as u32);
    input.extend_from_slice(&stream.bytes);
    let (out, off) = w4_to_w3(input).unwrap();
    assert_eq!(off, wx);
    assert_eq!(out, b"hi".to_vec());
}

#[test]
fn w4_two_chunks_concatenate_and_restart_at_chunk_bit_zero() {
    // First chunk: a bitstream that fills its whole 8192-byte block and
    // ends mid-byte; second chunk: its own stream, decoded from its own
    // first bit. The archive must be the first block followed by the
    // second chunk's bytes.
    let mut first = Bits::new();
    first.push_literal(b'q');
    let mut produced: usize = 1;
    while produced < 8192 {
        let mut c = 8192 - produced;
        if c > 512 {
            c = 512;
        }
        if 8192 - produced - c == 1 {
            c -= 1;
        }
        // Back-reference of depth one.
        first.push_bit(false);
        first.push_bit(false);
        first.push_bits(1, 6);
        let bases: [u16; 9] = [2, 3, 5, 9, 17, 33, 65, 129, 257];
        if c == 2 {
            first.push_bit(true);
        } else {
            for p in 1..9usize {
                let lo = bases[p] as usize;
                let hi = lo + (1 << p) - 1;
                if lo <= c && c <= hi {
                    for _ in 0..p {
                        first.push_bit(false);
                    }
                    first.push_bit(true);
                    first.push_bits((c - lo) as u32, p);
                    break;
                }
            }
        }
        produced += c;
    }
    let mut second = Bits::new();
    second.push_literal(b'a');
    second.push_literal(b'b');
    second.push_end();

    let wx: usize = 0x40;
    let data_off = wx + 16 + 12;  // two chunk entries plus the sentinel
    let mut input = vec![0u8; data_off];
    put_le32(&mut input, 0x3C, wx as u32);
    input[wx] = b'W';
    input[wx + 1] = b'4';
    put_le16(&mut input, wx + 6, 2);
    let second_off = data_off + first.bytes.len();
    put_le32(&mut input, wx + 16, data_off as u32);
    put_le32(&mut input, wx + 20, second_off as u32);
    put_le32(&mut input, wx + 24, (second_off + second.bytes.len()) as u32);
    input.extend_from_slice(&first.bytes);
    input.extend_from_slice(&second.bytes);

    let (out, _) = w4_to_w3(input).unwrap();
    assert_eq!(out.len(), 8192 + 2);
    assert!(out[..8192].iter().all(|&b| b == b'q'));
    assert_eq!(&out[8192..], b"ab");
}

#[test]
fn bad_container_tag_is_fatal() {
    let wx: usize = 0x40;
    let mut input = vec![0u8; wx + 8];
    put_le32(&mut input, 0x3C, wx as u32);
    input[wx] = b'X';
    input[wx + 1] = b'9';
    assert_eq!(w4_to_w3(input), Err(LoaderError::BadContainerSignature));
}

#[test]
fn short_container_is_truncated() {
    let input = vec![0u8; 0x20];
    assert_eq!(w4_to_w3(input), Err(LoaderError::Truncated));
}

#[test]
fn chunk_offset_reads_table_entry() {
    let wx: usize = 0x10;
    let mut input = vec![0u8; wx + 16 + 12];
    put_le32(&mut input, wx + 16, 0x1234);
    put_le32(&mut input, wx + 20, 0x2345);
    assert_eq!(w4_chunk_get_offset(&input, wx, 0), Ok(0x1234));
    assert_eq!(w4_chunk_get_offset(&input, wx, 1), Ok(0x2345));
    assert_eq!(w4_chunk_get_offset(&input, wx, 3), Err(LoaderError::Truncated));
}
