//! Canonical Huffman codes: from a code length per symbol to a decoder.
//!
//! The code of a symbol is fixed by the lengths alone: codes are handed out
//! in order of length, and among symbols of one length in order of symbol
//! value, each code one above the one before it. A code is read from the
//! bit stream most significant bit first.
use vstd::prelude::*;
use vstd::arithmetic::power2::{lemma2_to64, lemma_pow2_strictly_increases, lemma_pow2_unfold, pow2};
use crate::bits::{bit_at, lemma_bit_at_range, total_bits, BitReader};
use crate::error::{CorruptReason, DecodeError};

verus! {

/// The longest code, in bits.
pub const MAX_CODE_LENGTH: u8 = 15;

/// The largest alphabet.
pub const MAX_SYMBOLS: usize = 288;

/// How many of the symbols below `n` have code length `l`.
pub open spec fn count_len(lengths: Seq<u8>, l: int, n: int) -> int
    decreases n,
{
    if n <= 0 {
        0
    } else {
        count_len(lengths, l, n - 1) + if lengths[n - 1] as int == l { 1int } else { 0int }
    }
}

/// How many codes of length `l` there are; a length of zero marks a symbol
/// without a code.
pub open spec fn codes_of_len(lengths: Seq<u8>, l: int) -> int {
    if l <= 0 {
        0
    } else {
        count_len(lengths, l, lengths.len() as int)
    }
}

/// The smallest code of length `l`.
pub open spec fn first_code(lengths: Seq<u8>, l: int) -> int
    decreases l,
{
    if l <= 1 {
        0
    } else {
        2 * (first_code(lengths, l - 1) + codes_of_len(lengths, l - 1))
    }
}

/// The code of symbol `s`.
pub open spec fn code_of(lengths: Seq<u8>, s: int) -> int {
    first_code(lengths, lengths[s] as int) + count_len(lengths, lengths[s] as int, s)
}

/// How many codes of length `l` are left once every code of length up to
/// `l` has been handed out; negative if more were claimed than exist.
pub open spec fn unused_codes(lengths: Seq<u8>, l: int) -> int
    decreases l,
{
    if l <= 0 {
        1
    } else {
        2 * unused_codes(lengths, l - 1) - codes_of_len(lengths, l)
    }
}

/// The lengths claim more codes than there are.
pub open spec fn oversubscribed(lengths: Seq<u8>) -> bool {
    unused_codes(lengths, MAX_CODE_LENGTH as int) < 0
}

/// At most 288 symbols, none with a code longer than 15 bits.
pub open spec fn valid_lengths(lengths: Seq<u8>) -> bool {
    &&& lengths.len() <= MAX_SYMBOLS
    &&& forall|i: int| 0 <= i < lengths.len() ==> #[trigger] lengths[i] <= MAX_CODE_LENGTH
}

/// The value of the `n` bits from `pos` on, the first bit being the most
/// significant.
pub open spec fn code_value(data: Seq<u8>, pos: int, n: int) -> int
    decreases n,
{
    if n <= 0 {
        0
    } else {
        2 * code_value(data, pos, n - 1) + bit_at(data, pos + n - 1)
    }
}

/// Symbol `s` has the `l`-bit code `c`.
pub open spec fn is_code_of(lengths: Seq<u8>, s: int, l: int, c: int) -> bool {
    &&& 0 <= s < lengths.len()
    &&& l > 0
    &&& lengths[s] as int == l
    &&& code_of(lengths, s) == c
}

/// Some symbol has the `l`-bit code `c`.
pub open spec fn has_code(lengths: Seq<u8>, l: int, c: int) -> bool {
    exists|s: int| is_code_of(lengths, s, l, c)
}

/// The symbol with the `l`-bit code `c`.
pub open spec fn symbol_of(lengths: Seq<u8>, l: int, c: int) -> int {
    choose|s: int| is_code_of(lengths, s, l, c)
}

/// The symbol whose code stands at `pos`, trying code lengths from `l` up,
/// and the position after the code.
///
/// With no code of up to 15 bits there, the result is `TruncatedInput` if
/// the data ends within those 15 bits and `CorruptStream` otherwise.
pub open spec fn decode_from(data: Seq<u8>, pos: int, lengths: Seq<u8>, l: int) -> Result<
    (int, int),
    DecodeError,
>
    decreases MAX_CODE_LENGTH + 1 - l,
{
    if l > MAX_CODE_LENGTH {
        Err(DecodeError::CorruptStream(CorruptReason::UnassignedCode))
    } else if pos + l > total_bits(data) {
        Err(DecodeError::TruncatedInput)
    } else if has_code(lengths, l, code_value(data, pos, l)) {
        Ok((symbol_of(lengths, l, code_value(data, pos, l)), pos + l))
    } else {
        decode_from(data, pos, lengths, l + 1)
    }
}

/// The symbol whose code stands at `pos` and the position after the code.
pub open spec fn spec_decode(data: Seq<u8>, pos: int, lengths: Seq<u8>) -> Result<
    (int, int),
    DecodeError,
> {
    decode_from(data, pos, lengths, 1)
}

/// The place of symbol `s` in the decoding table: its code below a leading
/// one bit.
pub open spec fn key_of(lengths: Seq<u8>, s: int) -> int {
    pow2(lengths[s] as nat) + code_of(lengths, s)
}

/// Symbol `s` has a code and belongs at place `k` of the table.
pub open spec fn entry_for(lengths: Seq<u8>, s: int, k: int) -> bool {
    &&& 0 <= s < lengths.len()
    &&& lengths[s] > 0
    &&& key_of(lengths, s) == k
}

/// Of `n` symbols, between none and `n` have a given length.
pub proof fn lemma_count_len_range(lengths: Seq<u8>, l: int, n: int)
    requires
        0 <= n,
    ensures
        0 <= count_len(lengths, l, n) <= n,
    decreases n,
{
    if n > 0 {
        lemma_count_len_range(lengths, l, n - 1);
    }
}

/// Counting over more symbols counts no fewer.
pub proof fn lemma_count_len_monotonic(lengths: Seq<u8>, l: int, a: int, b: int)
    requires
        0 <= a <= b,
    ensures
        count_len(lengths, l, a) <= count_len(lengths, l, b),
    decreases b,
{
    if a < b {
        lemma_count_len_monotonic(lengths, l, a, b - 1);
    }
}

/// No first code is negative.
pub proof fn lemma_first_code_nonnegative(lengths: Seq<u8>, l: int)
    ensures
        0 <= first_code(lengths, l),
    decreases l,
{
    if l > 1 {
        lemma_first_code_nonnegative(lengths, l - 1);
        lemma_count_len_range(lengths, l - 1, lengths.len() as int);
    }
}

/// Once more codes are claimed than exist, longer codes cannot mend it.
pub proof fn lemma_unused_stays_negative(lengths: Seq<u8>, a: int, b: int)
    requires
        0 <= a <= b,
        unused_codes(lengths, a) < 0,
    ensures
        unused_codes(lengths, b) < 0,
    decreases b,
{
    if a < b {
        lemma_unused_stays_negative(lengths, a, b - 1);
        lemma_count_len_range(lengths, b, lengths.len() as int);
    }
}

/// The codes of length `l` that are taken by shorter codes, handed out, or
/// left over are all the `l`-bit codes there are.
pub proof fn lemma_code_space(lengths: Seq<u8>, l: int)
    requires
        l >= 1,
    ensures
        first_code(lengths, l) + codes_of_len(lengths, l) + unused_codes(lengths, l) == pow2(
            l as nat,
        ),
    decreases l,
{
    lemma2_to64();
    if l == 1 {
        assert(unused_codes(lengths, 0) == 1);
        assert(unused_codes(lengths, 1) == 2 * unused_codes(lengths, 0) - codes_of_len(lengths, 1));
    } else {
        lemma_code_space(lengths, l - 1);
        lemma_pow2_unfold(l as nat);
    }
}

/// Where the lengths are not oversubscribed, every code fits its length.
pub proof fn lemma_code_fits(lengths: Seq<u8>, s: int)
    requires
        0 <= s < lengths.len(),
        1 <= lengths[s] <= MAX_CODE_LENGTH,
        !oversubscribed(lengths),
    ensures
        0 <= code_of(lengths, s) < pow2(lengths[s] as nat),
{
    let l = lengths[s] as int;
    lemma_first_code_nonnegative(lengths, l);
    lemma_count_len_range(lengths, l, s);
    lemma_count_len_monotonic(lengths, l, s + 1, lengths.len() as int);
    lemma_code_space(lengths, l);
    if unused_codes(lengths, l) < 0 {
        lemma_unused_stays_negative(lengths, l, MAX_CODE_LENGTH as int);
    }
}

/// Two symbols of one length have different codes, in symbol order.
pub proof fn lemma_codes_ordered(lengths: Seq<u8>, s: int, t: int)
    requires
        0 <= s < t < lengths.len(),
        lengths[s] == lengths[t],
    ensures
        code_of(lengths, s) < code_of(lengths, t),
{
    lemma_count_len_monotonic(lengths, lengths[s] as int, s + 1, t);
}

/// Powers of two do not decrease with the exponent.
pub proof fn lemma_pow2_monotonic(a: nat, b: nat)
    requires
        a <= b,
    ensures
        pow2(a) <= pow2(b),
{
    if a < b {
        lemma_pow2_strictly_increases(a, b);
    }
}

/// No two symbols share a place in the decoding table.
pub proof fn lemma_keys_distinct(lengths: Seq<u8>, s: int, t: int)
    requires
        0 <= s < lengths.len(),
        0 <= t < lengths.len(),
        s != t,
        1 <= lengths[s] <= MAX_CODE_LENGTH,
        1 <= lengths[t] <= MAX_CODE_LENGTH,
        !oversubscribed(lengths),
    ensures
        key_of(lengths, s) != key_of(lengths, t),
{
    lemma_code_fits(lengths, s);
    lemma_code_fits(lengths, t);
    if lengths[s] == lengths[t] {
        if s < t {
            lemma_codes_ordered(lengths, s, t);
        } else {
            lemma_codes_ordered(lengths, t, s);
        }
    } else if lengths[s] < lengths[t] {
        lemma_pow2_unfold((lengths[s] + 1) as nat);
        lemma_pow2_monotonic((lengths[s] + 1) as nat, lengths[t] as nat);
    } else {
        lemma_pow2_unfold((lengths[t] + 1) as nat);
        lemma_pow2_monotonic((lengths[t] + 1) as nat, lengths[s] as nat);
    }
}

/// An `n`-bit code read from the stream is below 2 to the `n`.
pub proof fn lemma_code_value_range(data: Seq<u8>, pos: int, n: int)
    requires
        n >= 0,
    ensures
        0 <= code_value(data, pos, n) < pow2(n as nat),
    decreases n,
{
    lemma2_to64();
    if n > 0 {
        lemma_code_value_range(data, pos, n - 1);
        lemma_bit_at_range(data, pos + n - 1);
        lemma_pow2_unfold(n as nat);
    }
}

/// A decoded symbol belongs to the alphabet, and its code is 1 to 15 bits
/// that the data holds.
pub proof fn lemma_decode_from_advances(data: Seq<u8>, pos: int, lengths: Seq<u8>, l: int)
    requires
        1 <= l,
    ensures
        match decode_from(data, pos, lengths, l) {
            Ok((s, p)) => pos + l <= p <= pos + MAX_CODE_LENGTH && p <= total_bits(data) && 0 <= s
                < lengths.len(),
            Err(_) => true,
        },
    decreases MAX_CODE_LENGTH + 1 - l,
{
    if l <= MAX_CODE_LENGTH && pos + l <= total_bits(data) {
        if !has_code(lengths, l, code_value(data, pos, l)) {
            lemma_decode_from_advances(data, pos, lengths, l + 1);
        }
    }
}

/// A decoded symbol belongs to the alphabet, and the position after it
/// lies 1 to 15 bits on, within the data.
pub proof fn lemma_decode_advances(data: Seq<u8>, pos: int, lengths: Seq<u8>)
    ensures
        match spec_decode(data, pos, lengths) {
            Ok((s, p)) => pos < p <= pos + MAX_CODE_LENGTH && p <= total_bits(data) && 0 <= s
                < lengths.len(),
            Err(_) => true,
        },
{
    lemma_decode_from_advances(data, pos, lengths, 1);
}

/// Every code of a longer length lies at or above the codes of a shorter
/// length, shifted to the longer length.
pub proof fn lemma_first_code_grows(lengths: Seq<u8>, a: int, b: int)
    requires
        1 <= a < b,
    ensures
        first_code(lengths, b) >= pow2((b - a) as nat) * (first_code(lengths, a) + codes_of_len(
            lengths,
            a,
        )),
    decreases b,
{
    lemma2_to64();
    let f = first_code(lengths, a) + codes_of_len(lengths, a);
    if b == a + 1 {
        let p = pow2(1);
        assert(p * f == 2 * f) by (nonlinear_arith)
            requires
                p == 2,
        ;
    } else {
        lemma_first_code_grows(lengths, a, b - 1);
        lemma_count_len_range(lengths, b - 1, lengths.len() as int);
        lemma_pow2_unfold((b - a) as nat);
        let p = pow2((b - 1 - a) as nat);
        let q = pow2((b - a) as nat);
        assert(q * f == 2 * (p * f)) by (nonlinear_arith)
            requires
                q == 2 * p,
        ;
    }
}

/// The first `a` bits of a code of `b` bits are its value without the
/// last `b - a` bits.
pub proof fn lemma_code_value_prefix(data: Seq<u8>, pos: int, a: int, b: int)
    requires
        0 <= a <= b,
    ensures
        pow2((b - a) as nat) * code_value(data, pos, a) <= code_value(data, pos, b),
        code_value(data, pos, b) < pow2((b - a) as nat) * (code_value(data, pos, a) + 1),
    decreases b,
{
    lemma2_to64();
    let v = code_value(data, pos, a);
    if a == b {
        let p = pow2(0);
        assert(p * v == v && p * (v + 1) == v + 1) by (nonlinear_arith)
            requires
                p == 1,
        ;
    } else {
        lemma_code_value_prefix(data, pos, a, b - 1);
        lemma_bit_at_range(data, pos + b - 1);
        lemma_pow2_unfold((b - a) as nat);
        let p = pow2((b - 1 - a) as nat);
        let q = pow2((b - a) as nat);
        assert(q * v == 2 * (p * v) && q * (v + 1) == 2 * (p * (v + 1))) by (nonlinear_arith)
            requires
                q == 2 * p,
        ;
    }
}

/// No code is the start of a longer code: where the bits at `pos` are the
/// code of symbol `s`, no symbol with a shorter code matches them.
pub proof fn lemma_no_shorter_code(data: Seq<u8>, pos: int, lengths: Seq<u8>, s: int, t: int)
    requires
        0 <= s < lengths.len(),
        0 <= t < lengths.len(),
        1 <= lengths[t] < lengths[s],
        code_value(data, pos, lengths[s] as int) == code_of(lengths, s),
    ensures
        code_value(data, pos, lengths[t] as int) != code_of(lengths, t),
{
    let a = lengths[t] as int;
    let b = lengths[s] as int;
    if code_value(data, pos, a) == code_of(lengths, t) {
        lemma_code_value_prefix(data, pos, a, b);
        lemma_first_code_grows(lengths, a, b);
        lemma_count_len_monotonic(lengths, a, t + 1, lengths.len() as int);
        lemma_count_len_range(lengths, b, s);
        let p = pow2((b - a) as nat);
        let f = first_code(lengths, a) + codes_of_len(lengths, a);
        let v = code_of(lengths, t);
        assert(p * (v + 1) <= p * f) by (nonlinear_arith)
            requires
                v + 1 <= f,
                p >= 0,
        ;
    }
}

/// With code lengths from `l` on still to try, the decoder finds the
/// symbol whose code stands at `pos`.
pub proof fn lemma_decode_from_finds(data: Seq<u8>, pos: int, lengths: Seq<u8>, s: int, l: int)
    requires
        0 <= s < lengths.len(),
        1 <= l <= lengths[s] <= MAX_CODE_LENGTH,
        pos + lengths[s] <= total_bits(data),
        code_value(data, pos, lengths[s] as int) == code_of(lengths, s),
    ensures
        decode_from(data, pos, lengths, l) == Ok::<(int, int), DecodeError>(
            (s, pos + lengths[s]),
        ),
    decreases lengths[s] - l,
{
    let c = code_value(data, pos, l);
    if l < lengths[s] {
        assert forall|t: int| !is_code_of(lengths, t, l, c) by {
            if is_code_of(lengths, t, l, c) {
                lemma_no_shorter_code(data, pos, lengths, s, t);
            }
        }
        lemma_decode_from_finds(data, pos, lengths, s, l + 1);
    } else {
        assert(is_code_of(lengths, s, l, c));
        let chosen = symbol_of(lengths, l, c);
        assert(is_code_of(lengths, chosen, l, c));
        if chosen < s {
            lemma_codes_ordered(lengths, chosen, s);
        } else if s < chosen {
            lemma_codes_ordered(lengths, s, chosen);
        }
    }
}

/// Decoding undoes coding: where the bits at `pos` are the code of a
/// symbol, that symbol is what the decoder reads there, and it stops
/// right after the code.
pub proof fn lemma_code_decodes_to_its_symbol(data: Seq<u8>, pos: int, lengths: Seq<u8>, s: int)
    requires
        0 <= s < lengths.len(),
        1 <= lengths[s] <= MAX_CODE_LENGTH,
        pos + lengths[s] <= total_bits(data),
        code_value(data, pos, lengths[s] as int) == code_of(lengths, s),
    ensures
        spec_decode(data, pos, lengths) == Ok::<(int, int), DecodeError>((s, pos + lengths[s])),
{
    lemma_decode_from_finds(data, pos, lengths, s, 1);
}

/// Two to the `e`.
fn pow2_u32(e: u8) -> (r: u32)
    requires
        e <= 16,
    ensures
        r == pow2(e as nat),
        r <= 65536,
{
    let mut r: u32 = 1;
    let mut i: u8 = 0;
    proof {
        lemma2_to64();
    }
    while i < e
        invariant
            i <= e <= 16,
            r == pow2(i as nat),
            r <= pow2(16),
            pow2(16) == 65536,
        decreases e - i,
    {
        proof {
            lemma_pow2_unfold((i + 1) as nat);
            lemma_pow2_monotonic((i + 1) as nat, 16);
        }
        r = r * 2;
        i = i + 1;
    }
    r
}

/// A decoder for the canonical Huffman code of a sequence of code lengths.
pub struct HuffmanTree {
    /// At place `key_of(s)`, symbol `s` plus one; zero elsewhere.
    table: Vec<u16>,
    lengths: Ghost<Seq<u8>>,
}

impl View for HuffmanTree {
    type V = Seq<u8>;

    /// The code lengths that the tree was built from.
    closed spec fn view(&self) -> Seq<u8> {
        self.lengths@
    }
}

/// The table holds every one of the first `n` symbols that has a code at
/// its place, and nothing else.
pub open spec fn table_holds(table: Seq<u16>, lengths: Seq<u8>, n: int) -> bool {
    &&& forall|s: int|
        0 <= s < n && lengths[s] > 0 ==> 0 <= #[trigger] key_of(lengths, s) < table.len()
            && table[key_of(lengths, s)] as int == s + 1
    &&& forall|k: int|
        0 <= k < table.len() && #[trigger] table[k] != 0 ==> table[k] as int - 1 < n && entry_for(
            lengths,
            table[k] as int - 1,
            k,
        )
}

impl HuffmanTree {
    /// The lengths are those of a code, and the table decodes it.
    pub closed spec fn wf(&self) -> bool {
        &&& valid_lengths(self.lengths@)
        &&& !oversubscribed(self.lengths@)
        &&& self.table@.len() <= 65536
        &&& table_holds(self.table@, self.lengths@, self.lengths@.len() as int)
    }

    /// Builds the decoder for the code that `lengths` defines, symbol `s`
    /// having a code of `lengths[s]` bits, or none if that is zero.
    ///
    /// Lengths that leave codes unused are accepted; lengths that claim
    /// more codes than exist are not.
    pub fn build(lengths: &[u8]) -> (r: Result<HuffmanTree, DecodeError>)
        ensures
            !valid_lengths(lengths@) ==> r is Err && r->Err_0 == DecodeError::CorruptStream(
                CorruptReason::InvalidCodeLength,
            ),
            valid_lengths(lengths@) && oversubscribed(lengths@) ==> r is Err && r->Err_0
                == DecodeError::CorruptStream(CorruptReason::OversubscribedCode),
            valid_lengths(lengths@) && !oversubscribed(lengths@) ==> r is Ok && r->Ok_0.wf()
                && r->Ok_0@ == lengths@,
    {
        let n: usize = lengths.len();
        if n > MAX_SYMBOLS {
            return Err(DecodeError::CorruptStream(CorruptReason::InvalidCodeLength));
        }
        let ghost lens = lengths@;
        // How many symbols have each length, and the longest length in use.
        let mut counts: Vec<u16> = Vec::new();
        let mut next: Vec<u32> = Vec::new();
        let mut j: usize = 0;
        while j < 16
            invariant
                j <= 16,
                counts@.len() == j,
                next@.len() == j,
                forall|l: int| 0 <= l < j ==> counts@[l] == 0,
            decreases 16 - j,
        {
            counts.push(0);
            next.push(0);
            j = j + 1;
        }
        let mut longest: u8 = 0;
        let mut i: usize = 0;
        while i < n
            invariant
                i <= n <= MAX_SYMBOLS,
                n == lens.len(),
                lens == lengths@,
                counts@.len() == 16,
                longest <= MAX_CODE_LENGTH,
                forall|l: int|
                    0 <= l < 16 ==> #[trigger] counts@[l] as int == count_len(lens, l, i as int),
                forall|k: int| 0 <= k < i ==> #[trigger] lens[k] <= longest,
            decreases n - i,
        {
            let l: u8 = lengths[i];
            if l > MAX_CODE_LENGTH {
                return Err(DecodeError::CorruptStream(CorruptReason::InvalidCodeLength));
            }
            proof {
                lemma_count_len_range(lens, l as int, i as int);
            }
            let c: u16 = counts[l as usize];
            counts.set(l as usize, c + 1);
            if l > longest {
                longest = l;
            }
            i = i + 1;
        }
        assert(valid_lengths(lens));
        // The first code of each length, and whether the lengths fit.
        let mut unused: i32 = 1;
        let mut first: u32 = 0;
        let mut l: usize = 1;
        proof {
            lemma2_to64();
            assert(unused_codes(lens, 0) == 1);
        }
        while l <= 15
            invariant
                1 <= l <= 16,
                n == lens.len(),
                n <= MAX_SYMBOLS,
                lens == lengths@,
                valid_lengths(lens),
                counts@.len() == 16,
                next@.len() == 16,
                forall|k: int|
                    0 <= k < 16 ==> #[trigger] counts@[k] as int == count_len(lens, k, n as int),
                unused as int == unused_codes(lens, l - 1),
                0 <= unused <= pow2((l - 1) as nat),
                first as int == first_code(lens, l - 1) + codes_of_len(lens, l - 1),
                first <= pow2((l - 1) as nat),
                forall|k: int| 1 <= k < l ==> #[trigger] next@[k] as int == first_code(lens, k),
            decreases 16 - l,
        {
            proof {
                lemma_pow2_unfold(l as nat);
                lemma_pow2_monotonic(l as nat, 15);
                lemma2_to64();
                lemma_code_space(lens, l as int);
                lemma_count_len_range(lens, l as int, n as int);
                lemma_first_code_nonnegative(lens, l as int);
                assert(counts@[l as int] as int == count_len(lens, l as int, n as int));
            }
            let here: u32 = if l == 1 { 0 } else { first * 2 };
            let c: u16 = counts[l];
            unused = unused * 2 - c as i32;
            if unused < 0 {
                proof {
                    lemma_unused_stays_negative(lens, l as int, MAX_CODE_LENGTH as int);
                }
                return Err(DecodeError::CorruptStream(CorruptReason::OversubscribedCode));
            }
            next.set(l, here);
            first = here + c as u32;
            l = l + 1;
        }
        assert(!oversubscribed(lens));
        // The table, one place for each code.
        let size: u32 = pow2_u32(longest + 1);
        let mut table: Vec<u16> = Vec::new();
        let mut k: u32 = 0;
        while k < size
            invariant
                k <= size <= 65536,
                table@.len() == k,
                forall|q: int| 0 <= q < k ==> table@[q] == 0,
            decreases size - k,
        {
            table.push(0);
            k = k + 1;
        }
        let mut s: usize = 0;
        while s < n
            invariant
                s <= n <= MAX_SYMBOLS,
                n == lens.len(),
                lens == lengths@,
                valid_lengths(lens),
                !oversubscribed(lens),
                next@.len() == 16,
                table@.len() == size,
                size == pow2((longest + 1) as nat),
                longest <= MAX_CODE_LENGTH,
                forall|q: int| 0 <= q < n ==> #[trigger] lens[q] <= longest,
                forall|q: int|
                    1 <= q < 16 ==> #[trigger] next@[q] as int == first_code(lens, q) + count_len(
                        lens,
                        q,
                        s as int,
                    ),
                table_holds(table@, lens, s as int),
            decreases n - s,
        {
            let l: u8 = lengths[s];
            assert(lens[s as int] <= longest);
            if l > 0 {
                let code: u32 = next[l as usize];
                proof {
                    lemma_code_fits(lens, s as int);
                    lemma_pow2_unfold((l + 1) as nat);
                    lemma_pow2_monotonic((l + 1) as nat, (longest + 1) as nat);
                    lemma_pow2_monotonic(l as nat, 16);
                    lemma2_to64();
                    assert(code as int == code_of(lens, s as int));
                }
                let key: usize = (pow2_u32(l) + code) as usize;
                assert(key as int == key_of(lens, s as int));
                let ghost before = table@;
                proof {
                    if before[key as int] != 0 {
                        let t = before[key as int] as int - 1;
                        assert(entry_for(lens, t, key as int));
                        lemma_keys_distinct(lens, t, s as int);
                    }
                }
                table.set(key, (s + 1) as u16);
                next.set(l as usize, code + 1);
                proof {
                    assert forall|t: int| 0 <= t < s + 1 && lens[t] > 0 implies 0
                        <= #[trigger] key_of(lens, t) < table@.len() && table@[key_of(lens, t)]
                        as int == t + 1 by {
                        if t < s {
                            lemma_keys_distinct(lens, t, s as int);
                        }
                    }
                    assert forall|q: int|
                        0 <= q < table@.len() && #[trigger] table@[q] != 0 implies table@[q] as int
                        - 1 < s + 1 && entry_for(lens, table@[q] as int - 1, q) by {
                        if q != key {
                            assert(before[q] != 0);
                        }
                    }
                }
            }
            s = s + 1;
        }
        Ok(HuffmanTree { table, lengths: Ghost(lens) })
    }

    /// Reads one symbol: the bits at the reader's position are matched
    /// against the codes, shortest first.
    ///
    /// On an error the reader stays where it was.
    pub fn decode_symbol(&self, reader: &mut BitReader) -> (r: Result<u16, DecodeError>)
        requires
            self.wf(),
            old(reader).wf(),
        ensures
            final(reader).wf(),
            final(reader).data == old(reader).data,
            match spec_decode(old(reader).data@, old(reader).pos(), self@) {
                Ok((s, p)) => r is Ok && r->Ok_0 as int == s && final(reader).pos() == p && 0 <= s
                    < self@.len(),
                Err(e) => r == Err::<u16, DecodeError>(e) && final(reader).pos() == old(
                    reader,
                ).pos(),
            },
    {
        let start: BitReader = *reader;
        let ghost data = reader.data@;
        let ghost pos = reader.pos();
        let ghost lens = self.lengths@;
        let size: usize = self.table.len();
        let mut acc: usize = 1;
        let mut l: u8 = 0;
        proof {
            lemma2_to64();
            assert(code_value(data, pos, 0) == 0);
        }
        while l < MAX_CODE_LENGTH
            invariant
                l <= MAX_CODE_LENGTH,
                self.wf(),
                lens == self.lengths@,
                size == self.table@.len(),
                reader.wf(),
                reader.data == start.data,
                start.wf(),
                start.pos() == pos,
                start.data@ == data,
                start.data == old(reader).data,
                pos == old(reader).pos(),
                reader.pos() == pos + l,
                acc as int == pow2(l as nat) + code_value(data, pos, l as int),
                acc < 2 * pow2(l as nat),
                decode_from(data, pos, lens, l + 1) == spec_decode(data, pos, lens),
            decreases MAX_CODE_LENGTH - l,
        {
            let bit: u8 = match reader.read_bit() {
                Ok(b) => b,
                Err(e) => {
                    *reader = start;
                    return Err(e);
                },
            };
            proof {
                lemma_pow2_unfold((l + 1) as nat);
                lemma_pow2_monotonic((l + 1) as nat, 15);
                lemma2_to64();
                lemma_code_value_range(data, pos, l + 1);
            }
            acc = acc * 2 + bit as usize;
            l = l + 1;
            let ghost c = code_value(data, pos, l as int);
            if acc < size {
                let entry: u16 = self.table[acc];
                if entry != 0 {
                    proof {
                        let s = entry as int - 1;
                        assert(entry_for(lens, s, acc as int));
                        lemma_code_fits(lens, s);
                        let ls = lens[s] as int;
                        if ls < l {
                            lemma_pow2_unfold((ls + 1) as nat);
                            lemma_pow2_monotonic((ls + 1) as nat, l as nat);
                        } else if ls > l {
                            lemma_pow2_unfold((l + 1) as nat);
                            lemma_pow2_monotonic((l + 1) as nat, ls as nat);
                        }
                        assert(is_code_of(lens, s, l as int, c));
                        let chosen = symbol_of(lens, l as int, c);
                        assert(is_code_of(lens, chosen, l as int, c));
                        if chosen < s {
                            lemma_codes_ordered(lens, chosen, s);
                        } else if s < chosen {
                            lemma_codes_ordered(lens, s, chosen);
                        }
                    }
                    return Ok(entry - 1);
                }
            }
            proof {
                assert forall|s: int| !is_code_of(lens, s, l as int, c) by {
                    if is_code_of(lens, s, l as int, c) {
                        assert(key_of(lens, s) == acc);
                    }
                }
            }
        }
        *reader = start;
        Err(DecodeError::CorruptStream(CorruptReason::UnassignedCode))
    }
}

} // verus!
