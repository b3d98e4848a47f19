//! Decompression of a zlib stream: the two header bytes, then DEFLATE
//! blocks up to and including the first one marked final.
//!
//! The checksum that follows the last block is not read.
use vstd::prelude::*;
use vstd::arithmetic::power2::{lemma2_to64, pow2};
use crate::bits::{
    bit_at, bits_value, lemma_bits_value_range, next_boundary, read_bits, spec_field, total_bits,
    BitReader,
};
use crate::bytes::append_bytes;
use crate::error::{CorruptReason, DecodeError};
use crate::huffman::{
    codes_of_len, count_len, lemma_decode_advances, oversubscribed, spec_decode, unused_codes,
    valid_lengths, HuffmanTree,
};

verus! {

/// The farthest back that a match may reach.
pub const WINDOW_SIZE: usize = 32768;

/// The longest match.
pub const MAX_MATCH: usize = 258;

/// The literal/length symbol that ends a block.
pub const END_OF_BLOCK: u16 = 256;

/// The smallest match length of each length symbol, from symbol 257 on.
pub const LENGTH_BASE: [u16; 29] = [
    3, 4, 5, 6, 7, 8, 9, 10, 11, 13, 15, 17, 19, 23, 27, 31, 35, 43, 51, 59, 67, 83, 99, 115, 131,
    163, 195, 227, 258,
];

/// The number of extra bits after each length symbol, from symbol 257 on.
pub const LENGTH_EXTRA: [u8; 29] = [
    0, 0, 0, 0, 0, 0, 0, 0, 1, 1, 1, 1, 2, 2, 2, 2, 3, 3, 3, 3, 4, 4, 4, 4, 5, 5, 5, 5, 0,
];

/// The smallest distance of each distance symbol.
pub const DIST_BASE: [u16; 30] = [
    1, 2, 3, 4, 5, 7, 9, 13, 17, 25, 33, 49, 65, 97, 129, 193, 257, 385, 513, 769, 1025, 1537, 2049,
    3073, 4097, 6145, 8193, 12289, 16385, 24577,
];

/// The number of extra bits after each distance symbol.
pub const DIST_EXTRA: [u8; 30] = [
    0, 0, 0, 0, 1, 1, 2, 2, 3, 3, 4, 4, 5, 5, 6, 6, 7, 7, 8, 8, 9, 9, 10, 10, 11, 11, 12, 12, 13,
    13,
];

/// The order in which a dynamic block lists the lengths of the code-length
/// code.
pub const CODE_LENGTH_ORDER: [u8; 19] = [
    16, 17, 18, 0, 8, 7, 9, 6, 10, 5, 11, 4, 12, 3, 13, 2, 14, 1, 15,
];

/// The code lengths of the fixed literal/length code.
pub open spec fn fixed_literal_lengths() -> Seq<u8> {
    Seq::new(
        288,
        |s: int|
            if s < 144 {
                8u8
            } else if s < 256 {
                9u8
            } else if s < 280 {
                7u8
            } else {
                8u8
            },
    )
}

/// The code lengths of the fixed distance code.
pub open spec fn fixed_distance_lengths() -> Seq<u8> {
    Seq::new(30, |s: int| 5u8)
}

/// How many of the first `n` symbols of the fixed literal/length code have
/// length `l`.
pub open spec fn fixed_literal_count(l: int, n: int) -> int {
    if l == 7 {
        if n <= 256 {
            0
        } else if n <= 280 {
            n - 256
        } else {
            24
        }
    } else if l == 8 {
        if n <= 144 {
            n
        } else if n <= 280 {
            144
        } else {
            n - 136
        }
    } else if l == 9 {
        if n <= 144 {
            0
        } else if n <= 256 {
            n - 144
        } else {
            112
        }
    } else {
        0
    }
}

/// `fixed_literal_count` counts the lengths of the fixed literal/length code.
pub proof fn lemma_fixed_literal_count(l: int, n: int)
    requires
        0 <= n <= 288,
    ensures
        count_len(fixed_literal_lengths(), l, n) == fixed_literal_count(l, n),
    decreases n,
{
    if n > 0 {
        lemma_fixed_literal_count(l, n - 1);
    }
}

/// All code lengths of the fixed distance code are 5.
pub proof fn lemma_fixed_distance_count(l: int, n: int)
    requires
        0 <= n <= 30,
    ensures
        count_len(fixed_distance_lengths(), l, n) == if l == 5 { n } else { 0 },
    decreases n,
{
    if n > 0 {
        lemma_fixed_distance_count(l, n - 1);
    }
}

/// The fixed codes claim no more codes than there are: 24 of 7 bits, 152
/// of 8 and 112 of 9 fill the code space exactly, and 30 distance codes of
/// 5 bits leave two unused.
pub proof fn lemma_fixed_codes_fit()
    ensures
        valid_lengths(fixed_literal_lengths()),
        valid_lengths(fixed_distance_lengths()),
        !oversubscribed(fixed_literal_lengths()),
        !oversubscribed(fixed_distance_lengths()),
        unused_codes(fixed_literal_lengths(), 15) == 0,
{
    let lit = fixed_literal_lengths();
    let dist = fixed_distance_lengths();
    assert forall|l: int| 1 <= l <= 15 implies #[trigger] codes_of_len(lit, l)
        == fixed_literal_count(l, 288) by {
        lemma_fixed_literal_count(l, 288);
    }
    assert forall|l: int| 1 <= l <= 15 implies #[trigger] codes_of_len(dist, l) == if l == 5 {
        30int
    } else {
        0int
    } by {
        lemma_fixed_distance_count(l, 30);
    }
    reveal_with_fuel(unused_codes, 16);
    assert(unused_codes(lit, 15) == 0);
    assert(unused_codes(dist, 15) == 2048);
}

/// `out` followed by `n` bytes, each a copy of the byte `distance` places
/// before it; a copy may read what the same match has just written.
pub open spec fn copy_back(out: Seq<u8>, distance: int, n: int) -> Seq<u8>
    decreases n,
{
    if n <= 0 {
        out
    } else {
        copy_back(out.push(out[out.len() - distance]), distance, n - 1)
    }
}

/// The match that length symbol `sym` opens at `pos`: its length, its
/// distance and the position after it.
pub open spec fn spec_match(data: Seq<u8>, pos: int, sym: int, dist: Seq<u8>) -> Result<
    (int, int, int),
    DecodeError,
>
    recommends
        257 <= sym <= 285,
{
    match spec_field(data, pos, LENGTH_EXTRA@[sym - 257] as int) {
        Err(e) => Err(e),
        Ok((x, next)) => match spec_decode(data, next, dist) {
            Err(e) => Err(e),
            Ok((d, after)) => if d >= 30 {
                Err(DecodeError::CorruptStream(CorruptReason::InvalidSymbol))
            } else {
                match spec_field(data, after, DIST_EXTRA@[d] as int) {
                    Err(e) => Err(e),
                    Ok((y, end)) => Ok((LENGTH_BASE@[sym - 257] + x, DIST_BASE@[d] + y, end)),
                }
            },
        },
    }
}

/// A match ends at or after the position where it starts, within the data.
pub proof fn lemma_match_advances(data: Seq<u8>, pos: int, sym: int, dist: Seq<u8>)
    requires
        257 <= sym <= 285,
    ensures
        match spec_match(data, pos, sym, dist) {
            Ok((len, d, p)) => pos <= p <= total_bits(data) && 3 <= len <= MAX_MATCH && 1 <= d
                <= WINDOW_SIZE,
            Err(_) => true,
        },
{
    let nx = LENGTH_EXTRA@[sym - 257] as int;
    lemma_bits_value_range(data, pos, nx);
    lemma_length_range(sym, bits_value(data, pos, nx));
    if let Ok((x, next)) = spec_field(data, pos, nx) {
        lemma_decode_advances(data, next, dist);
        if let Ok((d, after)) = spec_decode(data, next, dist) {
            if d < 30 {
                let ny = DIST_EXTRA@[d] as int;
                lemma_bits_value_range(data, after, ny);
                lemma_dist_range(d, bits_value(data, after, ny));
            }
        }
    }
}

/// A length symbol with its extra bits stands for a length of 3 to 258.
pub proof fn lemma_length_range(sym: int, x: int)
    requires
        257 <= sym <= 285,
        0 <= x < pow2(LENGTH_EXTRA@[sym - 257] as nat),
    ensures
        3 <= LENGTH_BASE@[sym - 257] + x <= MAX_MATCH,
{
    lemma2_to64();
    let e = LENGTH_EXTRA@[sym - 257] as int;
    assert(e == 0 || e == 1 || e == 2 || e == 3 || e == 4 || e == 5);
}

/// A distance symbol with its extra bits stays within the window.
pub proof fn lemma_dist_range(d: int, y: int)
    requires
        0 <= d < 30,
        0 <= y < pow2(DIST_EXTRA@[d] as nat),
    ensures
        1 <= DIST_BASE@[d] + y <= WINDOW_SIZE,
{
    lemma2_to64();
    let e = DIST_EXTRA@[d] as int;
    assert(e == 0 || e == 1 || e == 2 || e == 3 || e == 4 || e == 5 || e == 6 || e == 7 || e == 8
        || e == 9 || e == 10 || e == 11 || e == 12 || e == 13);
}

/// The output of the compressed data at `pos`, appended to `out`, and the
/// position after the end-of-block symbol.
///
/// A symbol below 256 is a literal byte; 256 ends the block; a symbol from
/// 257 to 285 opens a match, which must not reach back past the start of
/// the output nor farther than the window.
pub open spec fn spec_codes(
    data: Seq<u8>,
    pos: int,
    lit: Seq<u8>,
    dist: Seq<u8>,
    out: Seq<u8>,
) -> Result<(int, Seq<u8>), DecodeError>
    decreases total_bits(data) - pos,
{
    match spec_decode(data, pos, lit) {
        Err(e) => Err(e),
        Ok((sym, next)) => {
            proof {
                lemma_decode_advances(data, pos, lit);
            }
            if sym < 256 {
                spec_codes(data, next, lit, dist, out.push(sym as u8))
            } else if sym == 256 {
                Ok((next, out))
            } else if sym > 285 {
                Err(DecodeError::CorruptStream(CorruptReason::InvalidSymbol))
            } else {
                proof {
                    lemma_match_advances(data, next, sym, dist);
                }
                match spec_match(data, next, sym, dist) {
                    Err(e) => Err(e),
                    Ok((len, d, after)) => if d > out.len() || d > WINDOW_SIZE {
                        Err(DecodeError::InvalidBackReference)
                    } else {
                        spec_codes(data, after, lit, dist, copy_back(out, d, len))
                    },
                }
            }
        },
    }
}

/// The output of a block compressed with the codes of the given lengths.
pub open spec fn spec_compressed(
    data: Seq<u8>,
    pos: int,
    lit: Seq<u8>,
    dist: Seq<u8>,
    out: Seq<u8>,
) -> Result<(int, Seq<u8>), DecodeError> {
    if oversubscribed(lit) || oversubscribed(dist) {
        Err(DecodeError::CorruptStream(CorruptReason::OversubscribedCode))
    } else {
        spec_codes(data, pos, lit, dist, out)
    }
}

/// The output of a stored block whose header ends at `pos`: after the next
/// byte boundary stand a 16-bit length, its complement, and that many bytes.
pub open spec fn spec_stored(data: Seq<u8>, pos: int, out: Seq<u8>) -> Result<
    (int, Seq<u8>),
    DecodeError,
> {
    let p = next_boundary(pos);
    if p + 32 > total_bits(data) {
        Err(DecodeError::TruncatedInput)
    } else {
        let len = bits_value(data, p, 16);
        let nlen = bits_value(data, p + 16, 16);
        if nlen as u16 != !(len as u16) {
            Err(DecodeError::ChecksumMismatch)
        } else if p + 32 + 8 * len > total_bits(data) {
            Err(DecodeError::TruncatedInput)
        } else {
            Ok((p + 32 + 8 * len, out + data.subrange(p / 8 + 4, p / 8 + 4 + len)))
        }
    }
}

/// The number of extra bits after a repeat symbol of the code-length code.
pub open spec fn repeat_bits(sym: int) -> int {
    if sym == 16 {
        2
    } else if sym == 17 {
        3
    } else {
        7
    }
}

/// The shortest run that a repeat symbol of the code-length code stands for.
pub open spec fn repeat_base(sym: int) -> int {
    if sym == 18 {
        11
    } else {
        3
    }
}

/// The code lengths read at `pos` with the code-length code `cl`, appended
/// to `acc` until there are `total` of them, and the position after them.
///
/// A symbol below 16 is a length; 16 repeats the length before it 3 to 6
/// times; 17 and 18 stand for 3 to 10 and 11 to 138 zeros.
pub open spec fn spec_code_lengths(
    data: Seq<u8>,
    pos: int,
    cl: Seq<u8>,
    total: int,
    acc: Seq<u8>,
) -> Result<(Seq<u8>, int), DecodeError>
    decreases total - acc.len(),
{
    if acc.len() >= total {
        Ok((acc, pos))
    } else {
        match spec_decode(data, pos, cl) {
            Err(e) => Err(e),
            Ok((sym, next)) => if sym < 16 {
                spec_code_lengths(data, next, cl, total, acc.push(sym as u8))
            } else if sym > 18 {
                Err(DecodeError::CorruptStream(CorruptReason::InvalidSymbol))
            } else if sym == 16 && acc.len() == 0 {
                Err(DecodeError::CorruptStream(CorruptReason::NoPreviousLength))
            } else {
                match spec_field(data, next, repeat_bits(sym)) {
                    Err(e) => Err(e),
                    Ok((x, after)) => {
                        proof {
                            lemma_bits_value_range(data, next, repeat_bits(sym));
                        }
                        let n = repeat_base(sym) + x;
                        let v = if sym == 16 { acc.last() } else { 0u8 };
                        if acc.len() + n > total {
                            Err(DecodeError::CorruptStream(CorruptReason::LengthOverrun))
                        } else {
                            spec_code_lengths(
                                data,
                                after,
                                cl,
                                total,
                                acc + Seq::new(n as nat, |i: int| v),
                            )
                        }
                    },
                }
            },
        }
    }
}

/// The lengths of the code-length code, of which the first `k` in the
/// listed order stand at `pos` as 3-bit fields and the others are zero.
pub open spec fn code_length_lengths(data: Seq<u8>, pos: int, k: int) -> Seq<u8>
    decreases k,
{
    if k <= 0 {
        Seq::new(19, |i: int| 0u8)
    } else {
        code_length_lengths(data, pos, k - 1).update(
            CODE_LENGTH_ORDER@[k - 1] as int,
            bits_value(data, pos + 3 * (k - 1), 3) as u8,
        )
    }
}

/// The code lengths that the header of a dynamic block at `pos` defines,
/// for literals and lengths and for distances, and the position after the
/// header.
pub open spec fn spec_dynamic_header(data: Seq<u8>, pos: int) -> Result<
    (Seq<u8>, Seq<u8>, int),
    DecodeError,
> {
    if pos + 14 > total_bits(data) {
        Err(DecodeError::TruncatedInput)
    } else {
        let hlit = bits_value(data, pos, 5) + 257;
        let hdist = bits_value(data, pos + 5, 5) + 1;
        let hclen = bits_value(data, pos + 10, 4) + 4;
        if pos + 14 + 3 * hclen > total_bits(data) {
            Err(DecodeError::TruncatedInput)
        } else {
            let cl = code_length_lengths(data, pos + 14, hclen);
            if oversubscribed(cl) {
                Err(DecodeError::CorruptStream(CorruptReason::OversubscribedCode))
            } else {
                match spec_code_lengths(
                    data,
                    pos + 14 + 3 * hclen,
                    cl,
                    hlit + hdist,
                    Seq::empty(),
                ) {
                    Err(e) => Err(e),
                    Ok((lens, p)) => Ok((lens.take(hlit), lens.skip(hlit), p)),
                }
            }
        }
    }
}

/// One block at `pos`: whether it is the final one, the position after it,
/// and `out` with the block's output appended.
#[verifier::opaque]
pub open spec fn spec_block(data: Seq<u8>, pos: int, out: Seq<u8>) -> Result<
    (bool, int, Seq<u8>),
    DecodeError,
> {
    if pos + 3 > total_bits(data) {
        Err(DecodeError::TruncatedInput)
    } else {
        let last = bit_at(data, pos) == 1;
        let kind = bits_value(data, pos + 1, 2);
        let body = if kind == 0 {
            spec_stored(data, pos + 3, out)
        } else if kind == 1 {
            spec_codes(data, pos + 3, fixed_literal_lengths(), fixed_distance_lengths(), out)
        } else if kind == 2 {
            match spec_dynamic_header(data, pos + 3) {
                Err(e) => Err(e),
                Ok((lit, dist, p)) => spec_compressed(data, p, lit, dist, out),
            }
        } else {
            Err(DecodeError::CorruptStream(CorruptReason::InvalidBlockType))
        };
        match body {
            Err(e) => Err(e),
            Ok((p, o)) => Ok((last, p, o)),
        }
    }
}

/// The output of the blocks from `pos` on, up to and including the first
/// final one, appended to `out`.
pub open spec fn spec_blocks(data: Seq<u8>, pos: int, out: Seq<u8>) -> Result<Seq<u8>, DecodeError>
    decreases total_bits(data) - pos,
{
    match spec_block(data, pos, out) {
        Err(e) => Err(e),
        Ok((last, p, o)) => if last {
            Ok(o)
        } else {
            proof {
                lemma_block_advances(data, pos, out);
            }
            spec_blocks(data, p, o)
        },
    }
}

/// What a zlib stream decompresses to.
///
/// The low four bits of the first byte must name method 8 and bit 5 of the
/// second byte, which announces a preset dictionary, must be clear; the
/// other header bits are not examined.
pub open spec fn spec_inflate(stream: Seq<u8>) -> Result<Seq<u8>, DecodeError> {
    if stream.len() < 2 {
        Err(DecodeError::TruncatedInput)
    } else if stream[0] & 0x0f != 8 || (stream[1] >> 5) & 1 != 0 {
        Err(DecodeError::UnsupportedCompression)
    } else {
        spec_blocks(stream, 16, Seq::empty())
    }
}

/// Compressed data ends after the position where it starts, within the
/// data.
pub proof fn lemma_codes_advance(data: Seq<u8>, pos: int, lit: Seq<u8>, dist: Seq<u8>, out: Seq<u8>)
    ensures
        match spec_codes(data, pos, lit, dist, out) {
            Ok((p, o)) => pos < p <= total_bits(data),
            Err(_) => true,
        },
    decreases total_bits(data) - pos,
{
    lemma_decode_advances(data, pos, lit);
    if let Ok((sym, next)) = spec_decode(data, pos, lit) {
        if sym < 256 {
            lemma_codes_advance(data, next, lit, dist, out.push(sym as u8));
        } else if 257 <= sym <= 285 {
            lemma_match_advances(data, next, sym, dist);
            if let Ok((len, d, after)) = spec_match(data, next, sym, dist) {
                if !(d > out.len() || d > WINDOW_SIZE) {
                    lemma_codes_advance(data, after, lit, dist, copy_back(out, d, len));
                }
            }
        }
    }
}

/// The code lengths of a dynamic block end at or after the position where
/// they start; there are as many as were asked for, none above 15.
pub proof fn lemma_code_lengths_advance(
    data: Seq<u8>,
    pos: int,
    cl: Seq<u8>,
    total: int,
    acc: Seq<u8>,
)
    requires
        acc.len() <= total,
        forall|i: int| 0 <= i < acc.len() ==> #[trigger] acc[i] <= 15,
    ensures
        match spec_code_lengths(data, pos, cl, total, acc) {
            Ok((lens, p)) => pos <= p && lens.len() == total && forall|i: int|
                0 <= i < lens.len() ==> #[trigger] lens[i] <= 15,
            Err(_) => true,
        },
    decreases total - acc.len(),
{
    if acc.len() < total {
        lemma_decode_advances(data, pos, cl);
        if let Ok((sym, next)) = spec_decode(data, pos, cl) {
            if sym < 16 {
                lemma_code_lengths_advance(data, next, cl, total, acc.push(sym as u8));
            } else if sym <= 18 && !(sym == 16 && acc.len() == 0) {
                lemma_bits_value_range(data, next, repeat_bits(sym));
                if let Ok((x, after)) = spec_field(data, next, repeat_bits(sym)) {
                    let n = repeat_base(sym) + x;
                    let v = if sym == 16 { acc.last() } else { 0u8 };
                    if acc.len() + n <= total {
                        lemma_code_lengths_advance(
                            data,
                            after,
                            cl,
                            total,
                            acc + Seq::new(n as nat, |i: int| v),
                        );
                    }
                }
            }
        }
    }
}

/// A block ends after the position where it starts, within the data.
pub proof fn lemma_block_advances(data: Seq<u8>, pos: int, out: Seq<u8>)
    ensures
        match spec_block(data, pos, out) {
            Ok((last, p, o)) => pos < p <= total_bits(data),
            Err(_) => true,
        },
{
    reveal(spec_block);
    if pos + 3 <= total_bits(data) {
        let kind = bits_value(data, pos + 1, 2);
        if kind == 0 {
            lemma_bits_value_range(data, next_boundary(pos + 3), 16);
        } else if kind == 1 {
            lemma_codes_advance(
                data,
                pos + 3,
                fixed_literal_lengths(),
                fixed_distance_lengths(),
                out,
            );
        } else if kind == 2 {
            if let Ok((lit, dist, p)) = spec_dynamic_header(data, pos + 3) {
                let hclen = bits_value(data, pos + 13, 4) + 4;
                lemma_bits_value_range(data, pos + 13, 4);
                lemma_bits_value_range(data, pos + 3, 5);
                lemma_bits_value_range(data, pos + 8, 5);
                let hlit = bits_value(data, pos + 3, 5) + 257;
                let hdist = bits_value(data, pos + 8, 5) + 1;
                lemma_code_lengths_advance(
                    data,
                    pos + 17 + 3 * hclen,
                    code_length_lengths(data, pos + 17, hclen),
                    hlit + hdist,
                    Seq::empty(),
                );
                lemma_codes_advance(data, p, lit, dist, out);
            }
        }
    }
}

/// The last bytes of the output, at most `WINDOW_SIZE` of them: what a
/// match may copy from.
pub open spec fn window(out: Seq<u8>) -> Seq<u8> {
    if out.len() <= WINDOW_SIZE {
        out
    } else {
        out.skip(out.len() - WINDOW_SIZE)
    }
}

/// A match adds `n` bytes, leaves what was there as it was, and makes each
/// new byte equal to the byte `distance` places before it.
pub proof fn lemma_copy_back_bytes(out: Seq<u8>, distance: int, n: int)
    requires
        1 <= distance <= out.len(),
        n >= 0,
    ensures
        copy_back(out, distance, n).len() == out.len() + n,
        copy_back(out, distance, n).take(out.len() as int) == out,
        forall|i: int|
            out.len() <= i < out.len() + n ==> #[trigger] copy_back(out, distance, n)[i]
                == copy_back(out, distance, n)[i - distance],
    decreases n,
{
    if n > 0 {
        let next = out.push(out[out.len() - distance]);
        lemma_copy_back_bytes(next, distance, n - 1);
        let r = copy_back(out, distance, n);
        assert(r.take(next.len() as int) == next);
        assert(r.take(out.len() as int) =~= next.take(out.len() as int));
        assert(next.take(out.len() as int) =~= out);
        assert forall|i: int| out.len() <= i < out.len() + n implies #[trigger] r[i] == r[i
            - distance] by {
            if i == out.len() {
                assert(r[i] == r.take(next.len() as int)[i]);
                assert(r[i - distance] == r.take(next.len() as int)[i - distance]);
            }
        }
    } else {
        assert(out.take(out.len() as int) =~= out);
    }
}

/// What a match appends depends only on the bytes from which its distance
/// is counted: output before them can be set aside.
pub proof fn lemma_copy_back_suffix(before: Seq<u8>, recent: Seq<u8>, distance: int, n: int)
    requires
        1 <= distance <= recent.len(),
    ensures
        copy_back(before + recent, distance, n) == before + copy_back(recent, distance, n),
    decreases n,
{
    if n > 0 {
        let x = recent[recent.len() - distance];
        assert((before + recent).push((before + recent)[(before + recent).len() - distance])
            =~= before + recent.push(x));
        lemma_copy_back_suffix(before, recent.push(x), distance, n - 1);
    }
}

/// A match that the decoder accepts reads nothing outside the window: the
/// output is what was there before the window, followed by the match
/// carried out on the window alone.
pub proof fn lemma_match_reads_window_only(out: Seq<u8>, distance: int, n: int)
    requires
        1 <= distance <= out.len(),
        distance <= WINDOW_SIZE,
    ensures
        window(out).len() <= WINDOW_SIZE,
        distance <= window(out).len(),
        copy_back(out, distance, n) == out.take(out.len() - window(out).len()) + copy_back(
            window(out),
            distance,
            n,
        ),
{
    let before = out.take(out.len() - window(out).len());
    assert(out =~= before + window(out));
    lemma_copy_back_suffix(before, window(out), distance, n);
}

/// A match whose distance is larger than the output so far is refused
/// with `InvalidBackReference`, wherever in a block it stands.
pub proof fn lemma_far_match_refused(
    data: Seq<u8>,
    pos: int,
    lit: Seq<u8>,
    dist: Seq<u8>,
    out: Seq<u8>,
)
    requires
        spec_decode(data, pos, lit) is Ok,
        257 <= spec_decode(data, pos, lit)->Ok_0.0 <= 285,
        spec_match(
            data,
            spec_decode(data, pos, lit)->Ok_0.1,
            spec_decode(data, pos, lit)->Ok_0.0,
            dist,
        ) is Ok,
        spec_match(
            data,
            spec_decode(data, pos, lit)->Ok_0.1,
            spec_decode(data, pos, lit)->Ok_0.0,
            dist,
        )->Ok_0.1 > out.len(),
    ensures
        spec_codes(data, pos, lit, dist, out) == Err::<(int, Seq<u8>), DecodeError>(
            DecodeError::InvalidBackReference,
        ),
{
}

/// A stored block is accepted only with a length field whose complement
/// follows it: with any other second field it is refused with
/// `ChecksumMismatch`, provided that both fields are there.
pub proof fn lemma_forged_complement_refused(data: Seq<u8>, pos: int, out: Seq<u8>)
    requires
        next_boundary(pos) + 32 <= total_bits(data),
    ensures
        bits_value(data, next_boundary(pos) + 16, 16) as u16 != !(bits_value(
            data,
            next_boundary(pos),
            16,
        ) as u16) ==> spec_stored(data, pos, out) == Err::<(int, Seq<u8>), DecodeError>(
            DecodeError::ChecksumMismatch,
        ),
        spec_stored(data, pos, out) is Ok ==> bits_value(data, next_boundary(pos) + 16, 16) as u16
            == !(bits_value(data, next_boundary(pos), 16) as u16),
{
}


/// Compressed data yields at most `MAX_MATCH` bytes for each bit that is
/// read: no more than a longest match behind a one-bit code.
pub proof fn lemma_codes_output_bounded(
    data: Seq<u8>,
    pos: int,
    lit: Seq<u8>,
    dist: Seq<u8>,
    out: Seq<u8>,
)
    ensures
        match spec_codes(data, pos, lit, dist, out) {
            Ok((p, o)) => o.len() <= out.len() + MAX_MATCH * (p - pos),
            Err(_) => true,
        },
    decreases total_bits(data) - pos,
{
    lemma_decode_advances(data, pos, lit);
    if let Ok((sym, next)) = spec_decode(data, pos, lit) {
        if sym < 256 {
            lemma_codes_output_bounded(data, next, lit, dist, out.push(sym as u8));
        } else if 257 <= sym <= 285 {
            lemma_match_advances(data, next, sym, dist);
            if let Ok((len, d, after)) = spec_match(data, next, sym, dist) {
                if !(d > out.len() || d > WINDOW_SIZE) {
                    lemma_copy_back_bytes(out, d, len);
                    lemma_codes_output_bounded(data, after, lit, dist, copy_back(out, d, len));
                }
            }
        }
    }
}

/// A block yields at most `MAX_MATCH` bytes for each of its bits.
pub proof fn lemma_block_output_bounded(data: Seq<u8>, pos: int, out: Seq<u8>)
    requires
        pos >= 0,
    ensures
        match spec_block(data, pos, out) {
            Ok((last, p, o)) => pos < p <= total_bits(data) && o.len() <= out.len()
                + MAX_MATCH * (p - pos),
            Err(_) => true,
        },
{
    reveal(spec_block);
    lemma_block_advances(data, pos, out);
    if pos + 3 <= total_bits(data) {
        let kind = bits_value(data, pos + 1, 2);
        if kind == 0 {
            lemma_bits_value_range(data, next_boundary(pos + 3), 16);
        } else if kind == 1 {
            lemma_codes_output_bounded(
                data,
                pos + 3,
                fixed_literal_lengths(),
                fixed_distance_lengths(),
                out,
            );
        } else if kind == 2 {
            if let Ok((lit, dist, p)) = spec_dynamic_header(data, pos + 3) {
                let hclen = bits_value(data, pos + 13, 4) + 4;
                lemma_bits_value_range(data, pos + 13, 4);
                let hlit = bits_value(data, pos + 3, 5) + 257;
                let hdist = bits_value(data, pos + 8, 5) + 1;
                lemma_bits_value_range(data, pos + 3, 5);
                lemma_bits_value_range(data, pos + 8, 5);
                lemma_code_lengths_advance(
                    data,
                    pos + 17 + 3 * hclen,
                    code_length_lengths(data, pos + 17, hclen),
                    hlit + hdist,
                    Seq::empty(),
                );
                lemma_codes_output_bounded(data, p, lit, dist, out);
            }
        }
    }
}

/// The blocks from `pos` on yield at most `MAX_MATCH` bytes for
/// each bit of the data after `pos`.
pub proof fn lemma_blocks_output_bounded(data: Seq<u8>, pos: int, out: Seq<u8>)
    requires
        pos >= 0,
    ensures
        match spec_blocks(data, pos, out) {
            Ok(o) => o.len() <= out.len() + MAX_MATCH * (total_bits(data) - pos),
            Err(_) => true,
        },
    decreases total_bits(data) - pos,
{
    lemma_block_output_bounded(data, pos, out);
    if let Ok((last, p, o)) = spec_block(data, pos, out) {
        if !last {
            lemma_blocks_output_bounded(data, p, o);
        }
    }
}

/// However a stream is made up, what it decompresses to is bounded by its
/// length: at most 2064 bytes, eight longest matches, for each byte of the stream.
pub proof fn lemma_inflate_output_bounded(stream: Seq<u8>)
    ensures
        match spec_inflate(stream) {
            Ok(o) => o.len() <= 2064 * stream.len(),
            Err(_) => true,
        },
{
    lemma_blocks_output_bounded(stream, 16, Seq::empty());
    assert(MAX_MATCH * 8 == 2064);
}

/// Copies a match to the end of the output, byte by byte from the front.
pub fn copy_match(out: &mut Vec<u8>, distance: usize, length: usize)
    requires
        1 <= distance <= old(out)@.len(),
    ensures
        final(out)@ == copy_back(old(out)@, distance as int, length as int),
{
    let mut k: usize = 0;
    while k < length
        invariant
            k <= length,
            1 <= distance <= out@.len(),
            copy_back(out@, distance as int, length - k) == copy_back(
                old(out)@,
                distance as int,
                length as int,
            ),
        decreases length - k,
    {
        let produced: usize = out.len();
        let b: u8 = out[produced - distance];
        out.push(b);
        k = k + 1;
    }
}

/// Reads what follows length symbol `sym`: its extra bits, the distance
/// symbol and the extra bits of that.
pub fn read_match(reader: &mut BitReader, sym: u16, dist: &HuffmanTree) -> (r: Result<
    (usize, usize),
    DecodeError,
>)
    requires
        old(reader).wf(),
        dist.wf(),
        257 <= sym <= 285,
    ensures
        final(reader).wf(),
        final(reader).data == old(reader).data,
        match spec_match(old(reader).data@, old(reader).pos(), sym as int, dist@) {
            Ok((len, d, p)) => r is Ok && r->Ok_0.0 as int == len && r->Ok_0.1 as int == d
                && final(reader).pos() == p && 1 <= d <= WINDOW_SIZE,
            Err(e) => r == Err::<(usize, usize), DecodeError>(e),
        },
{
    proof {
        lemma_match_advances(old(reader).data@, old(reader).pos(), sym as int, dist@);
    }
    let index: usize = (sym - 257) as usize;
    let x: u32 = read_bits(reader, LENGTH_EXTRA[index] as u32)?;
    let d: u16 = dist.decode_symbol(reader)?;
    if d >= 30 {
        return Err(DecodeError::CorruptStream(CorruptReason::InvalidSymbol));
    }
    let y: u32 = read_bits(reader, DIST_EXTRA[d as usize] as u32)?;
    let length: usize = LENGTH_BASE[index] as usize + x as usize;
    let distance: usize = DIST_BASE[d as usize] as usize + y as usize;
    Ok((length, distance))
}

/// Decodes the symbols of a compressed block up to its end-of-block
/// symbol, appending what they stand for to `out`.
pub fn inflate_codes(
    reader: &mut BitReader,
    lit: &HuffmanTree,
    dist: &HuffmanTree,
    out: &mut Vec<u8>,
) -> (r: Result<(), DecodeError>)
    requires
        old(reader).wf(),
        lit.wf(),
        dist.wf(),
    ensures
        final(reader).wf(),
        final(reader).data == old(reader).data,
        match spec_codes(old(reader).data@, old(reader).pos(), lit@, dist@, old(out)@) {
            Ok((p, o)) => r is Ok && final(reader).pos() == p && final(out)@ == o,
            Err(e) => r == Err::<(), DecodeError>(e),
        },
{
    let ghost data = reader.data@;
    let ghost goal = spec_codes(data, reader.pos(), lit@, dist@, out@);
    loop
        invariant
            reader.wf(),
            reader.data == old(reader).data,
            data == reader.data@,
            lit.wf(),
            dist.wf(),
            spec_codes(data, reader.pos(), lit@, dist@, out@) == goal,
            goal == spec_codes(old(reader).data@, old(reader).pos(), lit@, dist@, old(out)@),
        decreases total_bits(data) - reader.pos(),
    {
        proof {
            lemma_decode_advances(data, reader.pos(), lit@);
        }
        let sym: u16 = lit.decode_symbol(reader)?;
        if sym < 256 {
            out.push(sym as u8);
        } else if sym == END_OF_BLOCK {
            return Ok(());
        } else if sym > 285 {
            return Err(DecodeError::CorruptStream(CorruptReason::InvalidSymbol));
        } else {
            proof {
                lemma_match_advances(data, reader.pos(), sym as int, dist@);
            }
            let (length, distance) = read_match(reader, sym, dist)?;
            if distance > out.len() || distance > WINDOW_SIZE {
                return Err(DecodeError::InvalidBackReference);
            }
            copy_match(out, distance, length);
        }
    }
}

/// Reads a stored block whose three header bits have been read.
pub fn inflate_stored(reader: &mut BitReader, out: &mut Vec<u8>) -> (r: Result<(), DecodeError>)
    requires
        old(reader).wf(),
    ensures
        final(reader).wf(),
        final(reader).data == old(reader).data,
        match spec_stored(old(reader).data@, old(reader).pos(), old(out)@) {
            Ok((p, o)) => r is Ok && final(reader).pos() == p && final(out)@ == o,
            Err(e) => r == Err::<(), DecodeError>(e),
        },
{
    let ghost data = reader.data@;
    reader.align();
    let ghost p = reader.pos();
    proof {
        lemma_bits_value_range(data, p, 16);
        lemma_bits_value_range(data, p + 16, 16);
        lemma2_to64();
    }
    let len: u32 = read_bits(reader, 16)?;
    let nlen: u32 = read_bits(reader, 16)?;
    if nlen as u16 != !(len as u16) {
        return Err(DecodeError::ChecksumMismatch);
    }
    let bytes: &[u8] = reader.take_bytes(len as usize)?;
    append_bytes(out, bytes);
    Ok(())
}

/// Reads `total` code lengths with the code-length code `tree`.
pub fn read_code_lengths(reader: &mut BitReader, tree: &HuffmanTree, total: usize) -> (r: Result<
    Vec<u8>,
    DecodeError,
>)
    requires
        old(reader).wf(),
        tree.wf(),
    ensures
        final(reader).wf(),
        final(reader).data == old(reader).data,
        match spec_code_lengths(
            old(reader).data@,
            old(reader).pos(),
            tree@,
            total as int,
            Seq::empty(),
        ) {
            Ok((lens, p)) => r is Ok && r->Ok_0@ == lens && final(reader).pos() == p && lens.len()
                == total && forall|i: int| 0 <= i < lens.len() ==> #[trigger] lens[i] <= 15,
            Err(e) => r == Err::<Vec<u8>, DecodeError>(e),
        },
{
    let ghost data = reader.data@;
    let ghost goal = spec_code_lengths(data, reader.pos(), tree@, total as int, Seq::empty());
    let mut lens: Vec<u8> = Vec::new();
    while lens.len() < total
        invariant
            reader.wf(),
            reader.data == old(reader).data,
            data == reader.data@,
            tree.wf(),
            lens@.len() <= total,
            forall|i: int| 0 <= i < lens@.len() ==> #[trigger] lens@[i] <= 15,
            spec_code_lengths(data, reader.pos(), tree@, total as int, lens@) == goal,
            goal == spec_code_lengths(
                old(reader).data@,
                old(reader).pos(),
                tree@,
                total as int,
                Seq::empty(),
            ),
        decreases total - lens@.len(),
    {
        let sym: u16 = tree.decode_symbol(reader)?;
        if sym < 16 {
            lens.push(sym as u8);
        } else if sym > 18 {
            return Err(DecodeError::CorruptStream(CorruptReason::InvalidSymbol));
        } else if sym == 16 && lens.len() == 0 {
            return Err(DecodeError::CorruptStream(CorruptReason::NoPreviousLength));
        } else {
            let width: u32 = if sym == 16 { 2 } else if sym == 17 { 3 } else { 7 };
            let base: usize = if sym == 18 { 11 } else { 3 };
            proof {
                lemma_bits_value_range(data, reader.pos(), width as int);
                lemma2_to64();
            }
            let x: u32 = read_bits(reader, width)?;
            let n: usize = base + x as usize;
            if n > total - lens.len() {
                return Err(DecodeError::CorruptStream(CorruptReason::LengthOverrun));
            }
            let v: u8 = if sym == 16 { lens[lens.len() - 1] } else { 0 };
            let ghost before = lens@;
            let mut k: usize = 0;
            while k < n
                invariant
                    k <= n,
                    v <= 15,
                    before.len() + n <= total,
                    lens@ == before + Seq::new(k as nat, |i: int| v),
                decreases n - k,
            {
                lens.push(v);
                k = k + 1;
                assert(lens@ =~= before + Seq::new(k as nat, |i: int| v));
            }
        }
    }
    Ok(lens)
}

/// Reads the header of a dynamic block and builds the two decoders that
/// it defines.
pub fn read_dynamic_trees(reader: &mut BitReader) -> (r: Result<
    (HuffmanTree, HuffmanTree),
    DecodeError,
>)
    requires
        old(reader).wf(),
    ensures
        final(reader).wf(),
        final(reader).data == old(reader).data,
        match spec_dynamic_header(old(reader).data@, old(reader).pos()) {
            Ok((lit, dist, p)) => if oversubscribed(lit) || oversubscribed(dist) {
                r is Err && r->Err_0 == DecodeError::CorruptStream(
                    CorruptReason::OversubscribedCode,
                )
            } else {
                r is Ok && r->Ok_0.0.wf() && r->Ok_0.0@ == lit && r->Ok_0.1.wf() && r->Ok_0.1@
                    == dist && final(reader).pos() == p
            },
            Err(e) => r is Err && r->Err_0 == e,
        },
{
    let ghost data = reader.data@;
    let ghost pos = reader.pos();
    proof {
        lemma_bits_value_range(data, pos, 5);
        lemma_bits_value_range(data, pos + 5, 5);
        lemma_bits_value_range(data, pos + 10, 4);
        lemma2_to64();
    }
    let hlit: usize = read_bits(reader, 5)? as usize + 257;
    let hdist: usize = read_bits(reader, 5)? as usize + 1;
    let hclen: usize = read_bits(reader, 4)? as usize + 4;
    let mut cl: Vec<u8> = Vec::new();
    let mut j: usize = 0;
    while j < 19
        invariant
            j <= 19,
            cl@.len() == j,
            forall|i: int| 0 <= i < j ==> cl@[i] == 0,
        decreases 19 - j,
    {
        cl.push(0);
        j = j + 1;
    }
    assert(cl@ =~= code_length_lengths(data, pos + 14, 0));
    let mut k: usize = 0;
    while k < hclen
        invariant
            k <= hclen <= 19,
            reader.wf(),
            reader.data == old(reader).data,
            data == reader.data@,
            pos == old(reader).pos(),
            pos + 14 <= total_bits(data),
            reader.pos() == pos + 14 + 3 * k,
            cl@.len() == 19,
            cl@ == code_length_lengths(data, pos + 14, k as int),
            forall|i: int| 0 <= i < 19 ==> #[trigger] cl@[i] <= 7,
            hlit == bits_value(data, pos, 5) + 257,
            hdist == bits_value(data, pos + 5, 5) + 1,
            hclen == bits_value(data, pos + 10, 4) + 4,
        decreases hclen - k,
    {
        proof {
            lemma_bits_value_range(data, reader.pos(), 3);
            lemma2_to64();
        }
        let v: u32 = read_bits(reader, 3)?;
        cl.set(CODE_LENGTH_ORDER[k] as usize, v as u8);
        k = k + 1;
    }
    let cl_tree: HuffmanTree = HuffmanTree::build(cl.as_slice())?;
    let lens: Vec<u8> = read_code_lengths(reader, &cl_tree, hlit + hdist)?;
    let lit_lens: &[u8] = vstd::slice::slice_subrange(lens.as_slice(), 0, hlit);
    let dist_lens: &[u8] = vstd::slice::slice_subrange(lens.as_slice(), hlit, hlit + hdist);
    assert(lit_lens@ =~= lens@.take(hlit as int));
    assert(dist_lens@ =~= lens@.skip(hlit as int));
    let lit: HuffmanTree = HuffmanTree::build(lit_lens)?;
    let dist: HuffmanTree = HuffmanTree::build(dist_lens)?;
    Ok((lit, dist))
}

/// Builds the decoders of the fixed codes.
pub fn fixed_trees() -> (r: (HuffmanTree, HuffmanTree))
    ensures
        r.0.wf(),
        r.0@ == fixed_literal_lengths(),
        r.1.wf(),
        r.1@ == fixed_distance_lengths(),
{
    proof {
        lemma_fixed_codes_fit();
    }
    let mut lit_lens: Vec<u8> = Vec::new();
    let mut s: usize = 0;
    while s < 288
        invariant
            s <= 288,
            lit_lens@.len() == s,
            forall|i: int| 0 <= i < s ==> lit_lens@[i] == fixed_literal_lengths()[i],
        decreases 288 - s,
    {
        let l: u8 = if s < 144 { 8 } else if s < 256 { 9 } else if s < 280 { 7 } else { 8 };
        lit_lens.push(l);
        s = s + 1;
    }
    assert(lit_lens@ =~= fixed_literal_lengths());
    let mut dist_lens: Vec<u8> = Vec::new();
    let mut d: usize = 0;
    while d < 30
        invariant
            d <= 30,
            dist_lens@.len() == d,
            forall|i: int| 0 <= i < d ==> dist_lens@[i] == 5,
        decreases 30 - d,
    {
        dist_lens.push(5);
        d = d + 1;
    }
    assert(dist_lens@ =~= fixed_distance_lengths());
    let lit: HuffmanTree = HuffmanTree::build(lit_lens.as_slice()).unwrap();
    let dist: HuffmanTree = HuffmanTree::build(dist_lens.as_slice()).unwrap();
    (lit, dist)
}

/// Reads one block and appends its output to `out`; tells whether the
/// block was marked final.
pub fn inflate_block(
    reader: &mut BitReader,
    fixed: &(HuffmanTree, HuffmanTree),
    out: &mut Vec<u8>,
) -> (r: Result<bool, DecodeError>)
    requires
        old(reader).wf(),
        fixed.0.wf(),
        fixed.0@ == fixed_literal_lengths(),
        fixed.1.wf(),
        fixed.1@ == fixed_distance_lengths(),
    ensures
        final(reader).wf(),
        final(reader).data == old(reader).data,
        match spec_block(old(reader).data@, old(reader).pos(), old(out)@) {
            Ok((last, p, o)) => r == Ok::<bool, DecodeError>(last) && final(reader).pos() == p
                && final(out)@ == o,
            Err(e) => r == Err::<bool, DecodeError>(e),
        },
{
    let ghost data = reader.data@;
    let ghost pos = reader.pos();
    proof {
        reveal(spec_block);
        lemma_bits_value_range(data, pos + 1, 2);
        lemma2_to64();
        assert(bits_value(data, pos, 1) == bit_at(data, pos) + 2 * bits_value(data, pos + 1, 0));
    }
    let last: bool = read_bits(reader, 1)? == 1;
    let kind: u32 = read_bits(reader, 2)?;
    if kind == 0 {
        inflate_stored(reader, out)?;
    } else if kind == 1 {
        inflate_codes(reader, &fixed.0, &fixed.1, out)?;
    } else if kind == 2 {
        let (lit, dist) = read_dynamic_trees(reader)?;
        inflate_codes(reader, &lit, &dist, out)?;
    } else {
        return Err(DecodeError::CorruptStream(CorruptReason::InvalidBlockType));
    }
    Ok(last)
}

/// Decompresses the zlib stream that the data chunks of an image hold.
///
/// The result is what `spec_inflate` defines: the output of the blocks up
/// to the first final one, or the error of the first thing that is wrong.
pub fn decompress_image(image_data: &[u8]) -> (r: Result<Vec<u8>, DecodeError>)
    ensures
        match spec_inflate(image_data@) {
            Ok(o) => r is Ok && r->Ok_0@ == o,
            Err(e) => r == Err::<Vec<u8>, DecodeError>(e),
        },
{
    if image_data.len() < 2 {
        return Err(DecodeError::TruncatedInput);
    }
    let cmf: u8 = image_data[0];
    let flg: u8 = image_data[1];
    if cmf & 0x0f != 8 || (flg >> 5) & 1 != 0 {
        return Err(DecodeError::UnsupportedCompression);
    }
    let fixed: (HuffmanTree, HuffmanTree) = fixed_trees();
    let mut reader: BitReader = BitReader::new(image_data);
    reader.advance(16);
    let mut out: Vec<u8> = Vec::new();
    let ghost data = image_data@;
    loop
        invariant
            reader.wf(),
            reader.data@ == data,
            data == image_data@,
            fixed.0.wf(),
            fixed.0@ == fixed_literal_lengths(),
            fixed.1.wf(),
            fixed.1@ == fixed_distance_lengths(),
            spec_blocks(data, reader.pos(), out@) == spec_blocks(data, 16, Seq::empty()),
            spec_inflate(data) == spec_blocks(data, 16, Seq::empty()),
        decreases total_bits(data) - reader.pos(),
    {
        proof {
            lemma_block_advances(data, reader.pos(), out@);
        }
        let last: bool = inflate_block(&mut reader, &fixed, &mut out)?;
        if last {
            return Ok(out);
        }
    }
}

} // verus!
