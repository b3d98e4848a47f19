//! Reversal of the per-scanline filters of 8-bit truecolor images.
//!
//! A filtered scanline is one filter-type byte followed by three bytes for
//! each pixel. Reconstruction adds to every filtered byte, modulo 256, a
//! prediction made from the bytes already reconstructed to its left, above
//! it and above-left of it.
use vstd::prelude::*;
use vstd::arithmetic::mul::{lemma_mul_inequality, lemma_mul_is_distributive_add_other_way};
use crate::error::{CorruptReason, DecodeError};

verus! {

/// Bytes per pixel of 8-bit truecolor.
pub const BYTES_PER_PIXEL: usize = 3;

/// The distance between two integers.
pub open spec fn abs_diff(x: int, y: int) -> int {
    if x < y {
        y - x
    } else {
        x - y
    }
}

/// The Paeth predictor: whichever of left `a`, above `b` and above-left `c`
/// lies closest to `a + b - c`, the earlier one on a tie.
pub open spec fn paeth(a: int, b: int, c: int) -> int {
    let p = a + b - c;
    if abs_diff(p, a) <= abs_diff(p, b) && abs_diff(p, a) <= abs_diff(p, c) {
        a
    } else if abs_diff(p, b) <= abs_diff(p, c) {
        b
    } else {
        c
    }
}

/// What filter type `ft` predicts for a byte with neighbours `a`, `b`, `c`.
pub open spec fn prediction(ft: u8, a: int, b: int, c: int) -> int {
    if ft == 1 {
        a
    } else if ft == 2 {
        b
    } else if ft == 3 {
        (a + b) / 2
    } else if ft == 4 {
        paeth(a, b, c)
    } else {
        0
    }
}

/// One reconstructed byte.
pub open spec fn unfilter_byte(ft: u8, x: u8, a: int, b: int, c: int) -> u8 {
    ((x as int + prediction(ft, a, b, c)) % 256) as u8
}

/// The first `n` reconstructed bytes of a scanline with filter type `ft`
/// and filtered bytes `cur`, below the reconstructed scanline `prev`.
pub open spec fn unfilter_row(ft: u8, cur: Seq<u8>, prev: Seq<u8>, n: int) -> Seq<u8>
    decreases n,
{
    if n <= 0 {
        Seq::empty()
    } else {
        let done = unfilter_row(ft, cur, prev, n - 1);
        let i = n - 1;
        let a = if i >= 3 { done[i - 3] as int } else { 0 };
        let b = prev[i] as int;
        let c = if i >= 3 { prev[i - 3] as int } else { 0 };
        done.push(unfilter_byte(ft, cur[i], a, b, c))
    }
}

/// The scanline above row `row` among the reconstructed bytes `done`: all
/// zero above the first row.
pub open spec fn row_above(done: Seq<u8>, row_len: int, row: int) -> Seq<u8> {
    if row <= 0 {
        Seq::new(row_len as nat, |i: int| 0u8)
    } else {
        done.subrange((row - 1) * row_len, row * row_len)
    }
}

/// The reconstructed bytes of the first `rows` scanlines of `data`, each
/// scanline being one filter byte and `row_len` filtered bytes.
pub open spec fn unfilter_rows(data: Seq<u8>, row_len: int, rows: int) -> Seq<u8>
    decreases rows,
{
    if rows <= 0 {
        Seq::empty()
    } else {
        let done = unfilter_rows(data, row_len, rows - 1);
        let start = (rows - 1) * (row_len + 1);
        done + unfilter_row(
            data[start],
            data.subrange(start + 1, start + 1 + row_len),
            row_above(done, row_len, rows - 1),
            row_len,
        )
    }
}

/// Every one of the first `rows` scanlines starts with a filter type in 0..=4.
pub open spec fn filter_types_valid(data: Seq<u8>, row_len: int, rows: int) -> bool {
    forall|r: int| 0 <= r < rows ==> #[trigger] data[r * (row_len + 1)] <= 4
}

/// The pixel bytes of an image of `width` by `height` pixels whose filtered
/// scanlines are `data`.
pub open spec fn spec_unfilter(data: Seq<u8>, width: int, height: int) -> Result<
    Seq<u8>,
    DecodeError,
> {
    if data.len() != height * (width * 3 + 1) {
        Err(DecodeError::SizeMismatch)
    } else if !filter_types_valid(data, width * 3, height) {
        Err(DecodeError::CorruptStream(CorruptReason::InvalidFilterType))
    } else {
        Ok(unfilter_rows(data, width * 3, height))
    }
}

/// The first `n` reconstructed bytes are `n` bytes.
pub proof fn lemma_unfilter_row_len(ft: u8, cur: Seq<u8>, prev: Seq<u8>, n: int)
    requires
        n >= 0,
    ensures
        unfilter_row(ft, cur, prev, n).len() == n,
    decreases n,
{
    if n > 0 {
        lemma_unfilter_row_len(ft, cur, prev, n - 1);
    }
}

/// Reconstruction yields `row_len` bytes for each scanline.
pub proof fn lemma_unfilter_rows_len(data: Seq<u8>, row_len: int, rows: int)
    requires
        row_len >= 0,
        rows >= 0,
    ensures
        unfilter_rows(data, row_len, rows).len() == rows * row_len,
    decreases rows,
{
    if rows > 0 {
        lemma_unfilter_rows_len(data, row_len, rows - 1);
        let done = unfilter_rows(data, row_len, rows - 1);
        let start = (rows - 1) * (row_len + 1);
        lemma_unfilter_row_len(
            data[start],
            data.subrange(start + 1, start + 1 + row_len),
            row_above(done, row_len, rows - 1),
            row_len,
        );
        assert((rows - 1) * row_len + row_len == rows * row_len) by (nonlinear_arith);
    } else {
        assert(rows * row_len == 0) by (nonlinear_arith)
            requires
                rows == 0,
        ;
    }
}

/// With the Up filter every reconstructed byte is the filtered byte plus
/// the byte above it, modulo 256.
pub proof fn lemma_up_adds_byte_above(cur: Seq<u8>, prev: Seq<u8>, n: int, i: int)
    requires
        0 <= i < n,
    ensures
        unfilter_row(2, cur, prev, n)[i] == ((cur[i] as int + prev[i] as int) % 256) as u8,
    decreases n,
{
    lemma_unfilter_row_len(2, cur, prev, n - 1);
    if i < n - 1 {
        lemma_up_adds_byte_above(cur, prev, n - 1, i);
    }
}

/// What an encoder stores for the byte `x` under filter type `ft`: the
/// byte less its prediction, modulo 256.
pub open spec fn filter_byte(ft: u8, x: u8, a: int, b: int, c: int) -> u8 {
    ((x as int - prediction(ft, a, b, c)) % 256) as u8
}

/// The filtered form of the first `n` bytes of the scanline `raw` under
/// filter type `ft`, below the scanline `prev`.
pub open spec fn filter_row(ft: u8, raw: Seq<u8>, prev: Seq<u8>, n: int) -> Seq<u8> {
    Seq::new(
        n as nat,
        |i: int|
            filter_byte(
                ft,
                raw[i],
                if i >= 3 { raw[i - 3] as int } else { 0 },
                prev[i] as int,
                if i >= 3 { prev[i - 3] as int } else { 0 },
            ),
    )
}

/// A prediction from three bytes is a byte.
pub proof fn lemma_prediction_range(ft: u8, a: int, b: int, c: int)
    requires
        0 <= a < 256,
        0 <= b < 256,
        0 <= c < 256,
    ensures
        0 <= prediction(ft, a, b, c) < 256,
{
}

/// Reconstruction undoes filtering: for each of the five filter types, a
/// scanline that an encoder filtered as `filter_row` says comes back
/// byte for byte.
pub proof fn lemma_unfilter_inverts_filter(ft: u8, raw: Seq<u8>, prev: Seq<u8>, n: int)
    requires
        0 <= n <= raw.len(),
        ft <= 4,
    ensures
        unfilter_row(ft, filter_row(ft, raw, prev, n), prev, n) == raw.take(n),
    decreases n,
{
    let cur = filter_row(ft, raw, prev, n);
    if n > 0 {
        let shorter = filter_row(ft, raw, prev, n - 1);
        lemma_unfilter_inverts_filter(ft, raw, prev, n - 1);
        lemma_unfilter_row_same_start(ft, cur, shorter, prev, n - 1);
        let done = unfilter_row(ft, cur, prev, n - 1);
        assert(done == raw.take(n - 1));
        let i = n - 1;
        let a = if i >= 3 { done[i - 3] as int } else { 0 };
        let b = prev[i] as int;
        let c = if i >= 3 { prev[i - 3] as int } else { 0 };
        lemma_prediction_range(ft, a, b, c);
        assert(unfilter_byte(ft, cur[i], a, b, c) == raw[i]);
        assert(unfilter_row(ft, cur, prev, n) =~= raw.take(n));
    } else {
        assert(unfilter_row(ft, cur, prev, n) =~= raw.take(n));
    }
}

/// The first `n` reconstructed bytes depend on the first `n` filtered
/// bytes only.
pub proof fn lemma_unfilter_row_same_start(
    ft: u8,
    cur1: Seq<u8>,
    cur2: Seq<u8>,
    prev: Seq<u8>,
    n: int,
)
    requires
        forall|i: int| 0 <= i < n ==> cur1[i] == cur2[i],
    ensures
        unfilter_row(ft, cur1, prev, n) == unfilter_row(ft, cur2, prev, n),
    decreases n,
{
    if n > 0 {
        lemma_unfilter_row_same_start(ft, cur1, cur2, prev, n - 1);
    }
}

/// Computes the Paeth predictor of three bytes.
pub fn paeth_predictor(a: u8, b: u8, c: u8) -> (r: u8)
    ensures
        r as int == paeth(a as int, b as int, c as int),
{
    let p: i32 = a as i32 + b as i32 - c as i32;
    let pa: i32 = if p < a as i32 { a as i32 - p } else { p - a as i32 };
    let pb: i32 = if p < b as i32 { b as i32 - p } else { p - b as i32 };
    let pc: i32 = if p < c as i32 { c as i32 - p } else { p - c as i32 };
    if pa <= pb && pa <= pc {
        a
    } else if pb <= pc {
        b
    } else {
        c
    }
}

/// Reconstructs one byte from its filtered value and its three neighbours.
pub fn unfilter_one(ft: u8, x: u8, a: u8, b: u8, c: u8) -> (r: u8)
    ensures
        r == unfilter_byte(ft, x, a as int, b as int, c as int),
{
    let pred: u16 = if ft == 1 {
        a as u16
    } else if ft == 2 {
        b as u16
    } else if ft == 3 {
        (a as u16 + b as u16) / 2
    } else if ft == 4 {
        paeth_predictor(a, b, c) as u16
    } else {
        0
    };
    ((x as u16 + pred) % 256) as u8
}

/// Reverses the scanline filters of the decompressed image data.
///
/// Fails with `SizeMismatch` unless `data` holds exactly `height`
/// scanlines of `width * 3 + 1` bytes, and with `CorruptStream` if a
/// scanline starts with a filter type above 4. Otherwise the result is the
/// `width * height * 3` pixel bytes, row by row from the top.
pub fn unfilter(data: &[u8], width: u32, height: u32) -> (r: Result<Vec<u8>, DecodeError>)
    ensures
        match r {
            Ok(pixels) => spec_unfilter(data@, width as int, height as int) == Ok::<
                Seq<u8>,
                DecodeError,
            >(pixels@) && pixels@.len() == width * height * 3,
            Err(e) => spec_unfilter(data@, width as int, height as int) == Err::<
                Seq<u8>,
                DecodeError,
            >(e),
        },
{
    let stride_wide: u128 = width as u128 * 3 + 1;
    assert(stride_wide * (height as u128) <= 0x4_0000_0000 * 0x1_0000_0000) by (nonlinear_arith)
        requires
            stride_wide <= 0x4_0000_0000,
            height <= 0x1_0000_0000,
    ;
    let total: u128 = stride_wide * (height as u128);
    assert(total == height as int * (width as int * 3 + 1)) by (nonlinear_arith)
        requires
            total == stride_wide * (height as u128),
            stride_wide == width as int * 3 + 1,
    ;
    if data.len() as u128 != total {
        return Err(DecodeError::SizeMismatch);
    }
    let mut out: Vec<u8> = Vec::new();
    if height == 0 {
        assert(width * height * 3 == 0) by (nonlinear_arith)
            requires
                height == 0,
        ;
        return Ok(out);
    }
    assert(stride_wide <= total) by (nonlinear_arith)
        requires
            total == stride_wide * (height as u128),
            height >= 1,
            stride_wide >= 0,
    ;
    let stride: usize = stride_wide as usize;
    let row_len: usize = stride - 1;
    let rows: usize = height as usize;
    let mut row: usize = 0;
    let mut start: usize = 0;
    let mut above: usize = 0;
    while row < rows
        invariant
            row <= rows,
            rows == height,
            stride == row_len + 1,
            row_len == width * 3,
            data.len() == rows * stride,
            start == row * stride,
            out@.len() == row * row_len,
            row > 0 ==> above + row_len == out@.len(),
            row == 0 ==> above == 0,
            out@ == unfilter_rows(data@, row_len as int, row as int),
            filter_types_valid(data@, row_len as int, row as int),
        decreases rows - row,
    {
        proof {
            lemma_mul_inequality(row as int + 1, rows as int, stride as int);
            lemma_mul_is_distributive_add_other_way(stride as int, row as int, 1);
            lemma_mul_is_distributive_add_other_way(row_len as int, row as int, 1);
        }
        let ft: u8 = data[start];
        if ft > 4 {
            return Err(DecodeError::CorruptStream(CorruptReason::InvalidFilterType));
        }
        let ghost done = out@;
        let ghost cur = data@.subrange(start + 1, start + 1 + row_len);
        let ghost prev = row_above(done, row_len as int, row as int);
        let mut i: usize = 0;
        while i < row_len
            invariant
                i <= row_len,
                ft <= 4,
                ft == data@[start as int],
                start + stride <= data.len(),
                stride == row_len + 1,
                done.len() == row * row_len,
                row > 0 ==> above + row_len == done.len(),
                row == 0 ==> above == 0,
                cur == data@.subrange(start + 1, start + 1 + row_len),
                prev == row_above(done, row_len as int, row as int),
                out@ == done + unfilter_row(ft, cur, prev, i as int),
                out@.len() == done.len() + i,
            decreases row_len - i,
        {
            let x: u8 = data[start + 1 + i];
            let produced: usize = out.len();
            let a: u8 = if i >= 3 { out[produced - 3] } else { 0 };
            let b: u8 = if row > 0 { out[above + i] } else { 0 };
            let c: u8 = if row > 0 && i >= 3 { out[above + i - 3] } else { 0 };
            let v: u8 = unfilter_one(ft, x, a, b, c);
            proof {
                let part = unfilter_row(ft, cur, prev, i as int);
                lemma_unfilter_row_len(ft, cur, prev, i as int);
                assert(cur[i as int] == x);
                if i >= 3 {
                    assert(out@[out@.len() - 3] == part[i - 3]);
                }
                if row > 0 {
                    assert((row - 1) * row_len == above) by (nonlinear_arith)
                        requires
                            above + row_len == row * row_len,
                    ;
                    assert(prev[i as int] == done[above + i]);
                    assert(out@[above + i] == done[above + i]);
                    if i >= 3 {
                        assert(prev[i - 3] == done[above + i - 3]);
                        assert(out@[above + i - 3] == done[above + i - 3]);
                    }
                }
                assert(unfilter_row(ft, cur, prev, i + 1) == part.push(v));
                assert(out@.push(v) =~= done + part.push(v));
            }
            out.push(v);
            i = i + 1;
        }
        proof {
            assert forall|r: int| 0 <= r < row + 1 implies #[trigger] data@[r * (row_len as int
                + 1)] <= 4 by {
                if r == row {
                    assert(r * (row_len as int + 1) == start);
                }
            }
        }
        proof {
            assert(start - row == row * row_len) by (nonlinear_arith)
                requires
                    start == row * stride,
                    stride == row_len + 1,
            ;
        }
        above = start - row;
        start = start + stride;
        row = row + 1;
    }
    proof {
        assert(rows * row_len == width * height * 3) by (nonlinear_arith)
            requires
                rows == height,
                row_len == width * 3,
        ;
    }
    Ok(out)
}

} // verus!
