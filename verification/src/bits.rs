//! A cursor that reads a byte sequence bit by bit, least significant bit
//! of each byte first.
use vstd::prelude::*;
use vstd::arithmetic::power2::{lemma2_to64, lemma_pow2_strictly_increases, lemma_pow2_unfold, pow2};
use crate::error::DecodeError;

verus! {

/// The number of bits in `data`.
pub open spec fn total_bits(data: Seq<u8>) -> int {
    8 * (data.len() as int)
}

/// Bit `i` of `data`: bit `i % 8` of byte `i / 8`, counted from the least
/// significant.
pub open spec fn bit_at(data: Seq<u8>, i: int) -> int {
    ((data[i / 8] >> ((i % 8) as u8)) & 1) as int
}

/// The value of the `n` bits from position `pos` on, the first bit being
/// the least significant.
pub open spec fn bits_value(data: Seq<u8>, pos: int, n: int) -> int
    decreases n,
{
    if n <= 0 {
        0
    } else {
        bit_at(data, pos) + 2 * bits_value(data, pos + 1, n - 1)
    }
}

/// The `n`-bit field at `pos` and the position after it; `TruncatedInput`
/// if fewer than `n` bits are left.
pub open spec fn spec_field(data: Seq<u8>, pos: int, n: int) -> Result<(int, int), DecodeError> {
    if pos + n > total_bits(data) {
        Err(DecodeError::TruncatedInput)
    } else {
        Ok((bits_value(data, pos, n), pos + n))
    }
}

/// The first byte boundary at or after bit position `pos`.
pub open spec fn next_boundary(pos: int) -> int {
    (pos + 7) / 8 * 8
}

/// A bit is 0 or 1.
pub proof fn lemma_bit_at_range(data: Seq<u8>, i: int)
    ensures
        0 <= bit_at(data, i) <= 1,
{
    let x: u8 = data[i / 8];
    let s: u8 = (i % 8) as u8;
    assert((x >> s) & 1 <= 1) by (bit_vector);
}

/// An `n`-bit field is below 2 to the `n`.
pub proof fn lemma_bits_value_range(data: Seq<u8>, pos: int, n: int)
    requires
        n >= 0,
    ensures
        0 <= bits_value(data, pos, n) < pow2(n as nat),
    decreases n,
{
    lemma_bit_at_range(data, pos);
    if n > 0 {
        lemma_bits_value_range(data, pos + 1, n - 1);
        lemma_pow2_unfold(n as nat);
    } else {
        lemma2_to64();
    }
}

/// A field is its low `a` bits plus 2 to the `a` times the bits above
/// them.
pub proof fn lemma_bits_value_split(data: Seq<u8>, pos: int, a: int, b: int)
    requires
        a >= 0,
        b >= 0,
    ensures
        bits_value(data, pos, a + b) == bits_value(data, pos, a) + pow2(a as nat) * bits_value(
            data,
            pos + a,
            b,
        ),
    decreases a,
{
    lemma2_to64();
    let high = bits_value(data, pos + a, b);
    if a > 0 {
        lemma_bits_value_split(data, pos + 1, a - 1, b);
        lemma_pow2_unfold(a as nat);
        let p = pow2((a - 1) as nat);
        let q = pow2(a as nat);
        assert(q * high == 2 * (p * high)) by (nonlinear_arith)
            requires
                q == 2 * p,
        ;
        assert(bits_value(data, pos, a + b) == bit_at(data, pos) + 2 * bits_value(
            data,
            pos + 1,
            a + b - 1,
        ));
        assert(bits_value(data, pos, a) == bit_at(data, pos) + 2 * bits_value(
            data,
            pos + 1,
            a - 1,
        ));
    } else {
        let q = pow2(0);
        assert(q * high == high) by (nonlinear_arith)
            requires
                q == 1,
        ;
        assert(bits_value(data, pos, 0) == 0);
    }
}

/// Bit `j` of byte `k` stands at position `8 * k + j`.
pub proof fn lemma_bit_of_byte(data: Seq<u8>, k: int, j: int)
    requires
        0 <= k,
        0 <= j < 8,
    ensures
        bit_at(data, 8 * k + j) == ((data[k] >> (j as u8)) & 1),
{
    assert((8 * k + j) / 8 == k);
    assert((8 * k + j) % 8 == j);
}

/// Where a byte is 0 or 1, its lowest bit is the byte and the two bits
/// above it are zero.
pub proof fn lemma_flag_byte_bits(data: Seq<u8>, k: int)
    requires
        0 <= k,
        data[k] <= 1,
    ensures
        bit_at(data, 8 * k) == data[k],
        bits_value(data, 8 * k + 1, 2) == 0,
{
    lemma_bit_of_byte(data, k, 0);
    lemma_bit_of_byte(data, k, 1);
    lemma_bit_of_byte(data, k, 2);
    let x: u8 = data[k];
    assert((x >> 0u8) & 1 == x && (x >> 1u8) & 1 == 0 && (x >> 2u8) & 1 == 0) by (bit_vector)
        requires
            x <= 1,
    ;
    reveal_with_fuel(bits_value, 3);
}

/// The eight bits of a byte, read as a field, are the byte.
pub proof fn lemma_byte_field(data: Seq<u8>, k: int)
    requires
        0 <= k,
    ensures
        bits_value(data, 8 * k, 8) == data[k],
{
    reveal_with_fuel(bits_value, 9);
    let x: u8 = data[k];
    lemma_bit_of_byte(data, k, 0);
    lemma_bit_of_byte(data, k, 1);
    lemma_bit_of_byte(data, k, 2);
    lemma_bit_of_byte(data, k, 3);
    lemma_bit_of_byte(data, k, 4);
    lemma_bit_of_byte(data, k, 5);
    lemma_bit_of_byte(data, k, 6);
    lemma_bit_of_byte(data, k, 7);
    assert(x == ((x >> 0u8) & 1) + 2 * ((x >> 1u8) & 1) + 4 * ((x >> 2u8) & 1) + 8 * ((x >> 3u8)
        & 1) + 16 * ((x >> 4u8) & 1) + 32 * ((x >> 5u8) & 1) + 64 * ((x >> 6u8) & 1) + 128 * ((x
        >> 7u8) & 1)) by (bit_vector);
}

/// Two bytes, read as a 16-bit field, are the first plus 256 times the
/// second.
pub proof fn lemma_two_byte_field(data: Seq<u8>, k: int)
    requires
        0 <= k,
    ensures
        bits_value(data, 8 * k, 16) == data[k] + 256 * data[k + 1],
{
    lemma2_to64();
    lemma_bits_value_split(data, 8 * k, 8, 8);
    lemma_byte_field(data, k);
    lemma_byte_field(data, k + 1);
}

/// A read position in a byte slice, to the bit.
#[derive(Clone, Copy, Debug)]
pub struct BitReader<'a> {
    pub data: &'a [u8],
    /// Index of the byte that holds the next bit.
    pub byte: usize,
    /// Index of the next bit in that byte, 0 to 7.
    pub bit: u8,
}

impl<'a> BitReader<'a> {
    /// The position lies within the data or at its end.
    pub open spec fn wf(&self) -> bool {
        &&& self.byte <= self.data.len()
        &&& self.bit < 8
        &&& self.byte == self.data.len() ==> self.bit == 0
    }

    /// The position, in bits from the start of the data.
    pub open spec fn pos(&self) -> int {
        self.byte * 8 + self.bit
    }

    /// A reader at the first bit of `data`.
    pub fn new(data: &'a [u8]) -> (r: Self)
        ensures
            r.wf(),
            r.data == data,
            r.pos() == 0,
    {
        BitReader { data, byte: 0, bit: 0 }
    }

    /// The bit `offset` places after the position, without moving.
    pub fn peek_bit(&self, offset: u32) -> (r: u8)
        requires
            self.wf(),
            self.pos() + offset < total_bits(self.data@),
        ensures
            r as int == bit_at(self.data@, self.pos() + offset),
    {
        let o: u64 = self.bit as u64 + offset as u64;
        let index: usize = self.byte + (o / 8) as usize;
        let shift: u8 = (o % 8) as u8;
        let x: u8 = self.data[index];
        assert((x >> shift) & 1 <= 1) by (bit_vector);
        (x >> shift) & 1
    }

    /// Moves the position `n` bits on.
    pub fn advance(&mut self, n: u32)
        requires
            old(self).wf(),
            old(self).pos() + n <= total_bits(old(self).data@),
        ensures
            final(self).wf(),
            final(self).data == old(self).data,
            final(self).pos() == old(self).pos() + n,
    {
        let o: u64 = self.bit as u64 + n as u64;
        self.byte = self.byte + (o / 8) as usize;
        self.bit = (o % 8) as u8;
    }

    /// Reads one bit.
    pub fn read_bit(&mut self) -> (r: Result<u8, DecodeError>)
        requires
            old(self).wf(),
        ensures
            final(self).wf(),
            final(self).data == old(self).data,
            old(self).pos() >= total_bits(old(self).data@) ==> r == Err::<u8, DecodeError>(
                DecodeError::TruncatedInput,
            ) && final(self).pos() == old(self).pos(),
            old(self).pos() < total_bits(old(self).data@) ==> r is Ok && r->Ok_0 as int == bit_at(
                old(self).data@,
                old(self).pos(),
            ) && final(self).pos() == old(self).pos() + 1,
    {
        if self.byte >= self.data.len() {
            return Err(DecodeError::TruncatedInput);
        }
        let b: u8 = self.peek_bit(0);
        self.advance(1);
        Ok(b)
    }

    /// Moves the position to the next byte boundary, if it is not on one.
    pub fn align(&mut self)
        requires
            old(self).wf(),
        ensures
            final(self).wf(),
            final(self).data == old(self).data,
            final(self).pos() == next_boundary(old(self).pos()),
    {
        if self.bit != 0 {
            self.byte = self.byte + 1;
            self.bit = 0;
        }
    }

    /// Moves to the next byte boundary and takes the `n` bytes that follow.
    pub fn take_bytes(&mut self, n: usize) -> (r: Result<&'a [u8], DecodeError>)
        requires
            old(self).wf(),
        ensures
            final(self).wf(),
            final(self).data == old(self).data,
            next_boundary(old(self).pos()) + 8 * n > total_bits(old(self).data@) ==> r == Err::<
                &[u8],
                DecodeError,
            >(DecodeError::TruncatedInput) && final(self).pos() == old(self).pos(),
            next_boundary(old(self).pos()) + 8 * n <= total_bits(old(self).data@) ==> r is Ok
                && r->Ok_0@ == old(self).data@.subrange(
                next_boundary(old(self).pos()) / 8,
                next_boundary(old(self).pos()) / 8 + n,
            ) && final(self).pos() == next_boundary(old(self).pos()) + 8 * n,
    {
        let len: usize = self.data.len();
        let start: usize = if self.bit != 0 { self.byte + 1 } else { self.byte };
        if len - start < n {
            return Err(DecodeError::TruncatedInput);
        }
        let taken: &'a [u8] = vstd::slice::slice_subrange(self.data, start, start + n);
        self.byte = start + n;
        self.bit = 0;
        Ok(taken)
    }
}

/// Reads a field of `bits` bits, the first bit read being the least
/// significant of the result.
///
/// If fewer than `bits` bits are left the reader stays where it is.
pub fn read_bits(reader: &mut BitReader, bits: u32) -> (r: Result<u32, DecodeError>)
    requires
        old(reader).wf(),
        bits <= 32,
    ensures
        final(reader).wf(),
        final(reader).data == old(reader).data,
        match spec_field(old(reader).data@, old(reader).pos(), bits as int) {
            Ok((v, p)) => r is Ok && r->Ok_0 as int == v && final(reader).pos() == p,
            Err(e) => r == Err::<u32, DecodeError>(e) && final(reader).pos() == old(reader).pos(),
        },
{
    let left_bytes: usize = reader.data.len() - reader.byte;
    if left_bytes < 5 && (left_bytes * 8 - reader.bit as usize) < bits as usize {
        return Err(DecodeError::TruncatedInput);
    }
    let ghost data = reader.data@;
    let ghost pos = reader.pos();
    let mut value: u64 = 0;
    let mut k: u32 = bits;
    proof {
        lemma2_to64();
        assert(bits_value(data, pos + bits, 0) == 0);
    }
    while k > 0
        invariant
            k <= bits <= 32,
            reader.wf(),
            reader.data@ == data,
            reader.pos() == pos,
            pos + bits <= total_bits(data),
            value as int == bits_value(data, pos + k, bits - k),
            value < 0x1_0000_0000,
        decreases k,
    {
        k = k - 1;
        let b: u8 = reader.peek_bit(k);
        proof {
            lemma_bits_value_range(data, pos + k, bits - k);
            lemma2_to64();
            if bits - k < 32 {
                lemma_pow2_strictly_increases((bits - k) as nat, 32);
            }
        }
        value = value * 2 + b as u64;
    }
    reader.advance(bits);
    Ok(value as u32)
}

} // verus!
