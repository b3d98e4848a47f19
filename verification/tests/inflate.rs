use png_decode::error::{CorruptReason, DecodeError};
use png_decode::inflate::{copy_match, decompress_image, fixed_trees};
use png_decode::bits::BitReader;

/// Writes bits the way the stream holds them: each byte filled from its
/// lowest bit up.
struct BitWriter {
    bytes: Vec<u8>,
    used: u32,
}

impl BitWriter {
    /// A stream that starts with the two header bytes.
    fn new() -> BitWriter {
        BitWriter { bytes: vec![0x78, 0x01], used: 0 }
    }

    fn bit(&mut self, b: u32) {
        if self.used == 0 {
            self.bytes.push(0);
        }
        let last = self.bytes.len() - 1;
        self.bytes[last] |= ((b & 1) as u8) << self.used;
        self.used = (self.used + 1) % 8;
    }

    /// A field, lowest bit first.
    fn field(&mut self, value: u32, n: u32) {
        for i in 0..n {
            self.bit(value >> i);
        }
    }

    /// A Huffman code, highest bit first.
    fn code(&mut self, code: u32, n: u32) {
        for i in (0..n).rev() {
            self.bit(code >> i);
        }
    }

    fn block(&mut self, last: bool, kind: u32) {
        self.bit(last as u32);
        self.field(kind, 2);
    }

    /// A literal/length symbol in the fixed code.
    fn symbol(&mut self, s: u32) {
        if s < 144 {
            self.code(0x30 + s, 8);
        } else if s < 256 {
            self.code(0x190 + (s - 144), 9);
        } else if s < 280 {
            self.code(s - 256, 7);
        } else {
            self.code(0xc0 + (s - 280), 8);
        }
    }

    /// A distance symbol in the fixed code.
    fn distance(&mut self, d: u32) {
        self.code(d, 5);
    }

    fn align(&mut self) {
        self.used = 0;
    }

    fn byte(&mut self, b: u8) {
        self.align();
        self.bytes.push(b);
    }

    fn stored(&mut self, last: bool, data: &[u8]) {
        self.block(last, 0);
        self.align();
        let len = data.len() as u16;
        self.bytes.extend_from_slice(&len.to_le_bytes());
        self.bytes.extend_from_slice(&(!len).to_le_bytes());
        self.bytes.extend_from_slice(data);
    }
}

#[test]
fn stored_block_gives_its_bytes() {
    let mut w = BitWriter::new();
    w.stored(true, &[0, 1, 2, 3]);
    assert_eq!(w.bytes, vec![0x78, 0x01, 0x01, 4, 0, 0xfb, 0xff, 0, 1, 2, 3]);
    assert_eq!(decompress_image(&w.bytes), Ok(vec![0, 1, 2, 3]));
}

#[test]
fn empty_stored_block() {
    let mut w = BitWriter::new();
    w.stored(true, &[]);
    assert_eq!(decompress_image(&w.bytes), Ok(Vec::new()));
}

#[test]
fn blocks_are_read_up_to_the_final_one() {
    let mut w = BitWriter::new();
    w.stored(false, &[1, 2]);
    w.stored(false, &[]);
    w.stored(true, &[3]);
    w.stored(true, &[4]);
    assert_eq!(decompress_image(&w.bytes), Ok(vec![1, 2, 3]));
}

#[test]
fn bytes_after_the_final_block_are_not_read() {
    let mut w = BitWriter::new();
    w.stored(true, &[9]);
    w.bytes.extend_from_slice(&[0xff, 0xff, 0xff, 0xff, 0xff]);
    assert_eq!(decompress_image(&w.bytes), Ok(vec![9]));
}

#[test]
fn forged_complement_is_checksum_mismatch() {
    let mut w = BitWriter::new();
    w.stored(true, &[1, 2, 3]);
    w.bytes[5] ^= 0x01;
    assert_eq!(decompress_image(&w.bytes), Err(DecodeError::ChecksumMismatch));
    let mut w = BitWriter::new();
    w.stored(true, &[1, 2, 3]);
    w.bytes[6] = 0;
    assert_eq!(decompress_image(&w.bytes), Err(DecodeError::ChecksumMismatch));
    // Length and complement both zero.
    assert_eq!(
        decompress_image(&[0x78, 0x01, 0x01, 0, 0, 0, 0]),
        Err(DecodeError::ChecksumMismatch)
    );
}

#[test]
fn stored_block_cut_short_is_truncated_input() {
    let mut w = BitWriter::new();
    w.stored(true, &[1, 2, 3, 4]);
    for n in 2..w.bytes.len() {
        assert_eq!(decompress_image(&w.bytes[..n]), Err(DecodeError::TruncatedInput));
    }
}

#[test]
fn missing_final_block_is_truncated_input() {
    let mut w = BitWriter::new();
    w.stored(false, &[1, 2, 3, 4]);
    assert_eq!(decompress_image(&w.bytes), Err(DecodeError::TruncatedInput));
}

#[test]
fn header_of_fewer_than_two_bytes_is_truncated_input() {
    assert_eq!(decompress_image(&[]), Err(DecodeError::TruncatedInput));
    assert_eq!(decompress_image(&[0x78]), Err(DecodeError::TruncatedInput));
    assert_eq!(decompress_image(&[0x78, 0x01]), Err(DecodeError::TruncatedInput));
}

#[test]
fn other_method_or_preset_dictionary_is_unsupported_compression() {
    let mut w = BitWriter::new();
    w.stored(true, &[1]);
    let good = w.bytes.clone();
    let mut bad = good.clone();
    bad[0] = 0x77;
    assert_eq!(decompress_image(&bad), Err(DecodeError::UnsupportedCompression));
    let mut bad = good.clone();
    bad[1] = 0x20;
    assert_eq!(decompress_image(&bad), Err(DecodeError::UnsupportedCompression));
    assert_eq!(decompress_image(&[0x00, 0x00]), Err(DecodeError::UnsupportedCompression));
    // The other bits of the header do not matter.
    let mut other = good.clone();
    other[0] = 0x08;
    other[1] = 0xdf;
    assert_eq!(decompress_image(&other), Ok(vec![1]));
}

#[test]
fn reserved_block_type_is_corrupt() {
    let mut w = BitWriter::new();
    w.block(true, 3);
    w.byte(0);
    assert_eq!(
        decompress_image(&w.bytes),
        Err(DecodeError::CorruptStream(CorruptReason::InvalidBlockType))
    );
}

#[test]
fn fixed_code_literals() {
    let mut w = BitWriter::new();
    w.block(true, 1);
    for s in [0u32, 97, 143, 144, 200, 255] {
        w.symbol(s);
    }
    w.symbol(256);
    assert_eq!(decompress_image(&w.bytes), Ok(vec![0, 97, 143, 144, 200, 255]));
}

#[test]
fn match_at_distance_one_repeats_the_last_byte() {
    let mut w = BitWriter::new();
    w.block(true, 1);
    w.symbol(0x61);
    w.symbol(259); // length 5
    w.distance(0); // distance 1
    w.symbol(256);
    assert_eq!(decompress_image(&w.bytes), Ok(b"aaaaaa".to_vec()));
}

#[test]
fn overlapping_match_repeats_a_pattern() {
    let mut w = BitWriter::new();
    w.block(true, 1);
    w.symbol(b'a' as u32);
    w.symbol(b'b' as u32);
    w.symbol(b'c' as u32);
    w.symbol(264); // length 10
    w.distance(2); // distance 3
    w.symbol(256);
    assert_eq!(decompress_image(&w.bytes), Ok(b"abcabcabcabca".to_vec()));
}

#[test]
fn length_and_distance_with_extra_bits() {
    let mut w = BitWriter::new();
    w.block(true, 1);
    for b in 0..10u32 {
        w.symbol(b + 1);
    }
    w.symbol(265); // lengths 11 and 12
    w.field(1, 1); // length 12
    w.distance(5); // distances 7 and 8
    w.field(0, 1); // distance 7
    w.symbol(256);
    let mut expected: Vec<u8> = (1..=10).collect();
    for _ in 0..12 {
        expected.push(expected[expected.len() - 7]);
    }
    assert_eq!(expected[10..], [4, 5, 6, 7, 8, 9, 10, 4, 5, 6, 7, 8]);
    assert_eq!(decompress_image(&w.bytes), Ok(expected));
}

#[test]
fn longest_match() {
    let mut w = BitWriter::new();
    w.block(true, 1);
    w.symbol(7);
    w.symbol(285); // length 258
    w.distance(0);
    w.symbol(284); // lengths 227 to 258
    w.field(30, 5); // length 257
    w.distance(0);
    w.symbol(256);
    assert_eq!(decompress_image(&w.bytes), Ok(vec![7u8; 1 + 258 + 257]));
}

#[test]
fn match_across_blocks() {
    let mut w = BitWriter::new();
    w.stored(false, &[1, 2, 3, 4]);
    w.block(true, 1);
    w.symbol(257); // length 3
    w.distance(3); // distance 4
    w.symbol(256);
    assert_eq!(decompress_image(&w.bytes), Ok(vec![1, 2, 3, 4, 1, 2, 3]));
}

#[test]
fn distance_past_the_start_is_invalid_back_reference() {
    let mut w = BitWriter::new();
    w.block(true, 1);
    w.symbol(b'a' as u32);
    w.symbol(257);
    w.distance(1); // distance 2, one byte written
    w.symbol(256);
    assert_eq!(decompress_image(&w.bytes), Err(DecodeError::InvalidBackReference));
}

#[test]
fn match_before_any_output_is_invalid_back_reference() {
    let mut w = BitWriter::new();
    w.block(true, 1);
    w.symbol(257);
    w.distance(0);
    w.symbol(256);
    assert_eq!(decompress_image(&w.bytes), Err(DecodeError::InvalidBackReference));
}

#[test]
fn far_distance_past_the_start_is_invalid_back_reference() {
    let mut w = BitWriter::new();
    w.stored(false, &[5u8; 100]);
    w.block(true, 1);
    w.symbol(257);
    w.distance(29); // distances from 24577
    w.field(8191, 13); // distance 32768
    w.symbol(256);
    assert_eq!(decompress_image(&w.bytes), Err(DecodeError::InvalidBackReference));
}

#[test]
fn distance_equal_to_the_output_length_is_accepted() {
    let mut w = BitWriter::new();
    w.block(true, 1);
    w.symbol(1);
    w.symbol(2);
    w.symbol(257);
    w.distance(1); // distance 2, two bytes written
    w.symbol(256);
    assert_eq!(decompress_image(&w.bytes), Ok(vec![1, 2, 1, 2, 1]));
}

#[test]
fn length_symbols_past_285_are_corrupt() {
    for s in [286u32, 287] {
        let mut w = BitWriter::new();
        w.block(true, 1);
        w.symbol(s);
        w.byte(0);
        assert_eq!(
            decompress_image(&w.bytes),
            Err(DecodeError::CorruptStream(CorruptReason::InvalidSymbol))
        );
    }
}

#[test]
fn distance_code_without_a_symbol_is_corrupt() {
    for d in [30u32, 31] {
        let mut w = BitWriter::new();
        w.block(true, 1);
        w.symbol(1);
        w.symbol(257);
        w.distance(d);
        w.byte(0);
        w.byte(0);
        assert_eq!(
            decompress_image(&w.bytes),
            Err(DecodeError::CorruptStream(CorruptReason::UnassignedCode))
        );
    }
}

#[test]
fn compressed_block_cut_short_is_truncated_input() {
    let mut w = BitWriter::new();
    w.block(true, 1);
    w.symbol(b'a' as u32);
    w.symbol(264);
    w.distance(0);
    w.symbol(256);
    let whole = w.bytes.clone();
    assert_eq!(decompress_image(&whole), Ok(vec![b'a'; 11]));
    for n in 2..whole.len() {
        assert_eq!(decompress_image(&whole[..n]), Err(DecodeError::TruncatedInput));
    }
}

#[test]
fn dynamic_block_with_two_literals() {
    // Code-length code: symbols 1 and 18 have one-bit codes, 0 and 1.
    // Literal/length code: symbols 65 and 256 have length 1, all others none.
    // Distance code: its one symbol has length 1.
    let mut w = BitWriter::new();
    w.block(true, 2);
    w.field(0, 5); // 257 literal/length codes
    w.field(0, 5); // 1 distance code
    w.field(14, 4); // 18 code-length lengths: up to symbol 1 in the order
    for s in [16, 17, 18, 0, 8, 7, 9, 6, 10, 5, 11, 4, 12, 3, 13, 2, 14, 1] {
        w.field(if s == 18 || s == 1 { 1 } else { 0 }, 3);
    }
    w.code(1, 1); // 18: zeros
    w.field(65 - 11, 7); // 65 of them
    w.code(0, 1); // length 1 for symbol 65
    w.code(1, 1);
    w.field(138 - 11, 7); // 138 zeros: symbols 66 to 203
    w.code(1, 1);
    w.field(52 - 11, 7); // 52 zeros: symbols 204 to 255
    w.code(0, 1); // length 1 for symbol 256
    w.code(0, 1); // length 1 for distance symbol 0
    // The data: A, A, A, end of block.
    w.code(0, 1);
    w.code(0, 1);
    w.code(0, 1);
    w.code(1, 1);
    assert_eq!(decompress_image(&w.bytes), Ok(b"AAA".to_vec()));
}

#[test]
fn oversubscribed_code_length_code_is_corrupt() {
    let mut w = BitWriter::new();
    w.block(true, 2);
    w.field(0, 5);
    w.field(0, 5);
    w.field(0, 4); // four lengths
    for _ in 0..4 {
        w.field(1, 3);
    }
    w.byte(0);
    assert_eq!(
        decompress_image(&w.bytes),
        Err(DecodeError::CorruptStream(CorruptReason::OversubscribedCode))
    );
}

#[test]
fn repeat_with_nothing_before_it_is_corrupt() {
    // Code-length code: symbols 0 and 16 have the codes 0 and 1.
    let mut w = BitWriter::new();
    w.block(true, 2);
    w.field(0, 5);
    w.field(0, 5);
    w.field(0, 4);
    for l in [1, 0, 0, 1] {
        w.field(l, 3);
    }
    w.code(1, 1); // 16 comes first
    w.byte(0);
    assert_eq!(
        decompress_image(&w.bytes),
        Err(DecodeError::CorruptStream(CorruptReason::NoPreviousLength))
    );
}

#[test]
fn run_past_the_last_length_is_corrupt() {
    // Code-length code: symbols 0 and 18 have the codes 0 and 1.
    let mut w = BitWriter::new();
    w.block(true, 2);
    w.field(0, 5); // 257
    w.field(0, 5); // 1
    w.field(0, 4);
    for l in [0, 0, 1, 1] {
        w.field(l, 3);
    }
    w.code(1, 1);
    w.field(127, 7); // 138 zeros
    w.code(1, 1);
    w.field(127, 7); // 138 more: 276 of 258
    w.byte(0);
    assert_eq!(
        decompress_image(&w.bytes),
        Err(DecodeError::CorruptStream(CorruptReason::LengthOverrun))
    );
}

#[test]
fn oversubscribed_literal_code_is_corrupt() {
    // Code-length code: symbols 0 and 1 have the codes 0 and 1; three
    // literal symbols then claim a one-bit code each.
    let mut w = BitWriter::new();
    w.block(true, 2);
    w.field(0, 5);
    w.field(0, 5);
    w.field(14, 4);
    for s in [16, 17, 18, 0, 8, 7, 9, 6, 10, 5, 11, 4, 12, 3, 13, 2, 14, 1] {
        w.field(if s == 0 || s == 1 { 1 } else { 0 }, 3);
    }
    for i in 0..258 {
        w.code(if i < 3 { 1 } else { 0 }, 1);
    }
    w.byte(0);
    assert_eq!(
        decompress_image(&w.bytes),
        Err(DecodeError::CorruptStream(CorruptReason::OversubscribedCode))
    );
}

#[test]
fn dynamic_header_cut_short_is_truncated_input() {
    let mut w = BitWriter::new();
    w.block(true, 2);
    w.field(0, 5);
    w.field(0, 5);
    w.field(15, 4);
    w.field(1, 3);
    assert_eq!(decompress_image(&w.bytes), Err(DecodeError::TruncatedInput));
}

#[test]
fn copy_match_goes_forward_byte_by_byte() {
    let mut out = vec![1u8, 2, 3];
    copy_match(&mut out, 2, 5);
    assert_eq!(out, vec![1, 2, 3, 2, 3, 2, 3, 2]);
    copy_match(&mut out, 8, 2);
    assert_eq!(out, vec![1, 2, 3, 2, 3, 2, 3, 2, 1, 2]);
    copy_match(&mut out, 1, 0);
    assert_eq!(out.len(), 10);
}

#[test]
fn fixed_codes_decode_their_symbols() {
    let (lit, dist) = fixed_trees();
    // 0011_0000 is literal 0, 0000000 the end of block, 1100_0111 symbol 287,
    // 1_1111_1111 literal 255.
    let mut w = BitWriter { bytes: Vec::new(), used: 0 };
    w.code(0x30, 8);
    w.code(0, 7);
    w.code(0xc7, 8);
    w.code(0x1ff, 9);
    w.code(29, 5);
    w.code(0, 5);
    let mut reader = BitReader::new(&w.bytes);
    assert_eq!(lit.decode_symbol(&mut reader), Ok(0));
    assert_eq!(lit.decode_symbol(&mut reader), Ok(256));
    assert_eq!(lit.decode_symbol(&mut reader), Ok(287));
    assert_eq!(lit.decode_symbol(&mut reader), Ok(255));
    assert_eq!(dist.decode_symbol(&mut reader), Ok(29));
    assert_eq!(dist.decode_symbol(&mut reader), Ok(0));
}
