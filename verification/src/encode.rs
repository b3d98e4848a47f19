//! The plainest encoding of an image as a PNG file, and the proof that
//! decoding undoes it.
//!
//! Nothing here runs: the encoding is a definition, there to state what
//! the decoder gives back for files written this way.
use vstd::prelude::*;
use crate::bits::{
    bits_value, lemma_bits_value_range, lemma_flag_byte_bits, lemma_two_byte_field,
    next_boundary, total_bits,
};
use crate::bytes::be_u32;
use crate::chunk::{chunks_from, first_chunk, kind_of, spec_chunks, ChunkKind, ChunkView};
use crate::error::DecodeError;
use crate::filter::{
    filter_row, filter_types_valid, lemma_unfilter_inverts_filter, row_above, spec_unfilter,
    unfilter_rows,
};
use crate::header::{gather_from, spec_parse_header, spec_validate, ImageHeader};
use crate::huffman::{code_of, code_value, lemma_code_decodes_to_its_symbol, MAX_CODE_LENGTH};
use crate::inflate::{
    copy_back, lemma_dist_range, spec_block, spec_blocks, spec_codes, spec_inflate, spec_match,
    spec_stored, DIST_BASE, DIST_EXTRA, END_OF_BLOCK, LENGTH_BASE, LENGTH_EXTRA,
};
use crate::png::{agrees_before, first_mismatch, spec_read_png, ImageView, SIGNATURE};

verus! {

/// The most bytes that one stored block holds.
pub const MAX_STORED: usize = 65535;

/// A stored block that starts on a byte boundary: the header bits in a
/// byte of their own, the length, its complement, and the data.
pub open spec fn stored_block(last: bool, data: Seq<u8>) -> Seq<u8>
    recommends
        data.len() <= MAX_STORED,
{
    seq![
        if last { 1u8 } else { 0u8 },
        (data.len() % 256) as u8,
        (data.len() / 256) as u8,
        (255 - data.len() % 256) as u8,
        (255 - data.len() / 256) as u8,
    ] + data
}

/// `data` in stored blocks, each but the last as long as a block can be.
pub open spec fn stored_blocks(data: Seq<u8>) -> Seq<u8>
    decreases data.len(),
{
    if data.len() <= MAX_STORED {
        stored_block(true, data)
    } else {
        stored_block(false, data.take(MAX_STORED as int)) + stored_blocks(
            data.skip(MAX_STORED as int),
        )
    }
}

/// `data` as a zlib stream of stored blocks.
pub open spec fn stored_stream(data: Seq<u8>) -> Seq<u8> {
    seq![0x78u8, 0x01u8] + stored_blocks(data)
}

/// A stored block at byte `k` of `s` decodes to its data.
pub proof fn lemma_stored_block_decodes(
    s: Seq<u8>,
    k: int,
    last: bool,
    data: Seq<u8>,
    out: Seq<u8>,
)
    requires
        0 <= k,
        data.len() <= MAX_STORED,
        k + 5 + data.len() <= s.len(),
        s.subrange(k, k + 5 + data.len()) == stored_block(last, data),
    ensures
        spec_block(s, 8 * k, out) == Ok::<(bool, int, Seq<u8>), DecodeError>(
            (last, 8 * (k + 5 + data.len()), out + data),
        ),
{
    let block = stored_block(last, data);
    let n = data.len() as int;
    assert forall|j: int| 0 <= j < 5 + n implies s[k + j] == block[j] by {
        assert(s.subrange(k, k + 5 + n)[j] == s[k + j]);
    }
    assert(s[k] == block[0]);
    assert(s[k + 1] == block[1]);
    assert(s[k + 2] == block[2]);
    assert(s[k + 3] == block[3]);
    assert(s[k + 4] == block[4]);
    lemma_flag_byte_bits(s, k);
    lemma_two_byte_field(s, k + 1);
    lemma_two_byte_field(s, k + 3);
    let p = 8 * (k + 1);
    assert(next_boundary(8 * k + 3) == p);
    assert(p + 16 == 8 * (k + 3));
    assert(bits_value(s, p, 16) == n);
    assert(bits_value(s, p + 16, 16) == 65535 - n);
    let x: u16 = n as u16;
    let y: u16 = (65535 - n) as u16;
    assert(y == !x) by (bit_vector)
        requires
            y == 65535 - x,
    ;
    assert(p / 8 == k + 1);
    assert forall|j: int| 0 <= j < n implies s.subrange(k + 5, k + 5 + n)[j] == data[j] by {
        assert(s[k + (5 + j)] == block[5 + j]);
    }
    assert(s.subrange(p / 8 + 4, p / 8 + 4 + n) =~= data);
    lemma_stored_at(s, 8 * k + 3, p, n, out);
    reveal(spec_block);
}

/// A stored block whose fields hold the length `n` and its complement
/// yields the `n` bytes after them.
pub proof fn lemma_stored_at(s: Seq<u8>, pos: int, p: int, n: int, out: Seq<u8>)
    requires
        p == next_boundary(pos),
        0 <= n <= MAX_STORED,
        p + 32 + 8 * n <= total_bits(s),
        bits_value(s, p, 16) == n,
        bits_value(s, p + 16, 16) == 65535 - n,
        (65535 - n) as u16 == !(n as u16),
    ensures
        spec_stored(s, pos, out) == Ok::<(int, Seq<u8>), DecodeError>(
            (p + 32 + 8 * n, out + s.subrange(p / 8 + 4, p / 8 + 4 + n)),
        ),
{
}

/// Stored blocks that fill `s` from byte `k` on decode to their data.
pub proof fn lemma_stored_blocks_decode(s: Seq<u8>, k: int, data: Seq<u8>, out: Seq<u8>)
    requires
        0 <= k <= s.len(),
        s.skip(k) == stored_blocks(data),
    ensures
        spec_blocks(s, 8 * k, out) == Ok::<Seq<u8>, DecodeError>(out + data),
    decreases data.len(),
{
    if data.len() <= MAX_STORED {
        assert(s.subrange(k, k + 5 + data.len()) =~= s.skip(k));
        lemma_stored_block_decodes(s, k, true, data, out);
    } else {
        let first = data.take(MAX_STORED as int);
        let rest = data.skip(MAX_STORED as int);
        assert(s.subrange(k, k + 5 + first.len()) =~= stored_block(false, first)) by {
            assert(s.skip(k) == stored_block(false, first) + stored_blocks(rest));
            assert forall|j: int| 0 <= j < 5 + first.len() implies s.subrange(
                k,
                k + 5 + first.len(),
            )[j] == stored_block(false, first)[j] by {
                assert(s.skip(k)[j] == s[k + j]);
            }
        }
        lemma_stored_block_decodes(s, k, false, first, out);
        let k2 = k + 5 + first.len();
        assert(s.skip(k2) =~= stored_blocks(rest)) by {
            assert(s.skip(k) == stored_block(false, first) + stored_blocks(rest));
            assert(s.skip(k2) =~= s.skip(k).skip(5 + first.len() as int));
        }
        lemma_stored_blocks_decode(s, k2, rest, out + first);
        assert(out + first + rest =~= out + data);
    }
}

/// Decompression undoes the stored encoding: whatever the data, its
/// stream of stored blocks decompresses to it.
pub proof fn lemma_stored_stream_round_trip(data: Seq<u8>)
    ensures
        spec_inflate(stored_stream(data)) == Ok::<Seq<u8>, DecodeError>(data),
{
    let s = stored_stream(data);
    assert(s[0] == 0x78u8);
    assert(s[1] == 0x01u8);
    assert(0x78u8 & 0x0f == 8) by (bit_vector);
    assert((0x01u8 >> 5u8) & 1 == 0) by (bit_vector);
    assert(s.skip(2) =~= stored_blocks(data));
    lemma_stored_blocks_decode(s, 2, data, Seq::empty());
    assert(Seq::<u8>::empty() + data =~= data);
}

/// The scanlines of the first `rows` rows of `pixels`, each of `row_len`
/// bytes: row `r` filtered with type `types[r]` and headed by that type.
pub open spec fn filter_rows(pixels: Seq<u8>, row_len: int, rows: int, types: Seq<u8>) -> Seq<u8>
    decreases rows,
{
    if rows <= 0 {
        Seq::empty()
    } else {
        let r = rows - 1;
        filter_rows(pixels, row_len, r, types) + seq![types[r]] + filter_row(
            types[r],
            pixels.subrange(r * row_len, rows * row_len),
            row_above(pixels, row_len, r),
            row_len,
        )
    }
}

/// Filtering yields one byte more than `row_len` for each row.
pub proof fn lemma_filter_rows_len(pixels: Seq<u8>, row_len: int, rows: int, types: Seq<u8>)
    requires
        row_len >= 0,
        rows >= 0,
    ensures
        filter_rows(pixels, row_len, rows, types).len() == rows * (row_len + 1),
    decreases rows,
{
    if rows > 0 {
        lemma_filter_rows_len(pixels, row_len, rows - 1, types);
        assert((rows - 1) * (row_len + 1) + 1 + row_len == rows * (row_len + 1))
            by (nonlinear_arith);
    } else {
        assert(rows * (row_len + 1) == 0) by (nonlinear_arith)
            requires
                rows == 0,
        ;
    }
}

/// The first `rows` reconstructed rows depend on the first `rows`
/// scanlines only.
pub proof fn lemma_unfilter_rows_same_start(d1: Seq<u8>, d2: Seq<u8>, row_len: int, rows: int)
    requires
        row_len >= 0,
        rows >= 0,
        rows * (row_len + 1) <= d1.len(),
        rows * (row_len + 1) <= d2.len(),
        forall|i: int| 0 <= i < rows * (row_len + 1) ==> d1[i] == d2[i],
    ensures
        unfilter_rows(d1, row_len, rows) == unfilter_rows(d2, row_len, rows),
    decreases rows,
{
    if rows > 0 {
        let start = (rows - 1) * (row_len + 1);
        assert(start + 1 + row_len == rows * (row_len + 1)) by (nonlinear_arith)
            requires
                start == (rows - 1) * (row_len + 1),
        ;
        assert(0 <= start) by (nonlinear_arith)
            requires
                start == (rows - 1) * (row_len + 1),
                rows >= 1,
                row_len >= 0,
        ;
        lemma_unfilter_rows_same_start(d1, d2, row_len, rows - 1);
        assert(d1[start] == d2[start]);
        assert(d1.subrange(start + 1, start + 1 + row_len) =~= d2.subrange(
            start + 1,
            start + 1 + row_len,
        ));
    }
}

/// Reconstruction undoes filtering, row by row: whichever of the five
/// filter types an encoder picks for each row, the pixels come back.
pub proof fn lemma_unfilter_inverts_filter_rows(
    pixels: Seq<u8>,
    row_len: int,
    rows: int,
    types: Seq<u8>,
)
    requires
        row_len >= 0,
        rows >= 0,
        rows * row_len <= pixels.len(),
        rows <= types.len(),
        forall|r: int| 0 <= r < rows ==> #[trigger] types[r] <= 4,
    ensures
        unfilter_rows(filter_rows(pixels, row_len, rows, types), row_len, rows) == pixels.take(
            rows * row_len,
        ),
        filter_types_valid(filter_rows(pixels, row_len, rows, types), row_len, rows),
    decreases rows,
{
    let all = filter_rows(pixels, row_len, rows, types);
    if rows > 0 {
        let r = rows - 1;
        let fewer = filter_rows(pixels, row_len, r, types);
        let start = r * (row_len + 1);
        let raw = pixels.subrange(r * row_len, rows * row_len);
        let above = row_above(pixels, row_len, r);
        let line = filter_row(types[r], raw, above, row_len);
        assert(r * row_len + row_len == rows * row_len) by (nonlinear_arith)
            requires
                r == rows - 1,
        ;
        assert(0 <= r * row_len) by (nonlinear_arith)
            requires
                r >= 0,
                row_len >= 0,
        ;
        lemma_filter_rows_len(pixels, row_len, r, types);
        lemma_filter_rows_len(pixels, row_len, rows, types);
        assert(all == fewer + seq![types[r]] + line);
        assert(fewer.len() == start);
        lemma_unfilter_inverts_filter_rows(pixels, row_len, r, types);
        assert forall|i: int| 0 <= i < start implies all[i] == fewer[i] by {}
        lemma_unfilter_rows_same_start(all, fewer, row_len, r);
        let done = unfilter_rows(all, row_len, r);
        assert(done == pixels.take(r * row_len));
        assert(all[start] == types[r]);
        assert(all.subrange(start + 1, start + 1 + row_len) =~= line);
        assert(row_above(done, row_len, r) =~= above) by {
            if r > 0 {
                assert((r - 1) * row_len + row_len == r * row_len) by (nonlinear_arith);
                assert(0 <= (r - 1) * row_len) by (nonlinear_arith)
                    requires
                        r >= 1,
                        row_len >= 0,
                ;
            }
        }
        lemma_unfilter_inverts_filter(types[r], raw, above, row_len);
        assert(raw.take(row_len) =~= raw);
        assert(unfilter_rows(all, row_len, rows) == done + raw);
        assert(done + raw =~= pixels.take(rows * row_len));
        assert forall|q: int| 0 <= q < rows implies #[trigger] all[q * (row_len + 1)] <= 4 by {
            if q < r {
                assert(filter_types_valid(fewer, row_len, r));
                assert(fewer[q * (row_len + 1)] <= 4);
                assert(q * (row_len + 1) + row_len + 1 <= r * (row_len + 1)) by (nonlinear_arith)
                    requires
                        q < r,
                        row_len >= 0,
                ;
                assert(0 <= q * (row_len + 1)) by (nonlinear_arith)
                    requires
                        q >= 0,
                        row_len >= 0,
                ;
            }
        }
    } else {
        assert(pixels.take(rows * row_len) =~= Seq::<u8>::empty()) by {
            assert(rows * row_len == 0) by (nonlinear_arith)
                requires
                    rows == 0,
            ;
        }
    }
}

/// The four bytes of a 32-bit count, most significant first.
pub open spec fn be_bytes(n: int) -> Seq<u8>
    recommends
        0 <= n < 0x1_0000_0000,
{
    seq![
        (n / 16777216) as u8,
        (n / 65536 % 256) as u8,
        (n / 256 % 256) as u8,
        (n % 256) as u8,
    ]
}

/// A chunk record: length, type code, payload and the four trailer bytes.
#[verifier::opaque]
pub open spec fn chunk_bytes(code: Seq<u8>, data: Seq<u8>, trailer: Seq<u8>) -> Seq<u8> {
    be_bytes(data.len() as int) + code + data + trailer
}

/// The payload of the header chunk of an 8-bit truecolor image without
/// interlacing.
pub open spec fn header_bytes(width: u32, height: u32) -> Seq<u8> {
    be_bytes(width as int) + be_bytes(height as int) + seq![8u8, 2u8, 0u8, 0u8, 0u8]
}

/// The type code of the header chunk.
pub open spec fn header_code() -> Seq<u8> {
    seq![0x49u8, 0x48u8, 0x44u8, 0x52u8]
}

/// The type code of a data chunk.
pub open spec fn data_code() -> Seq<u8> {
    seq![0x49u8, 0x44u8, 0x41u8, 0x54u8]
}

/// The type code of the end chunk.
pub open spec fn end_code() -> Seq<u8> {
    seq![0x49u8, 0x45u8, 0x4Eu8, 0x44u8]
}

/// The scanline data of an image whose row `r` is filtered with type
/// `types[r]`, as a stream of stored blocks.
pub open spec fn image_stream(image: ImageView, types: Seq<u8>) -> Seq<u8> {
    stored_stream(filter_rows(image.pixels, image.width * 3, image.height as int, types))
}

/// A file for `image`: the signature, the header chunk, one data chunk
/// with the stream of `image_stream`, and the end chunk. The three
/// trailers are left open: the decoder does not examine them.
pub open spec fn encode_png(image: ImageView, types: Seq<u8>, trailers: Seq<Seq<u8>>) -> Seq<u8> {
    SIGNATURE@ + chunk_bytes(header_code(), header_bytes(image.width, image.height), trailers[0])
        + chunk_bytes(data_code(), image_stream(image, types), trailers[1]) + chunk_bytes(
        end_code(),
        Seq::empty(),
        trailers[2],
    )
}

/// The bytes of a count, read back, are the count.
pub proof fn lemma_be_bytes_value(n: int, after: Seq<u8>)
    requires
        0 <= n < 0x1_0000_0000,
    ensures
        be_u32(be_bytes(n) + after) == n,
{
    let s = be_bytes(n) + after;
    assert(s[0] == be_bytes(n)[0]);
    assert(s[1] == be_bytes(n)[1]);
    assert(s[2] == be_bytes(n)[2]);
    assert(s[3] == be_bytes(n)[3]);
}

/// A chunk record at the front of `s` is read as the chunk it was made
/// from.
pub proof fn lemma_first_chunk_read(
    code: Seq<u8>,
    data: Seq<u8>,
    trailer: Seq<u8>,
    after: Seq<u8>,
)
    requires
        code.len() == 4,
        kind_of(code) is Some,
        data.len() < 0x1_0000_0000,
        trailer.len() == 4,
    ensures
        first_chunk(chunk_bytes(code, data, trailer) + after) == Ok::<
            (ChunkView, int),
            DecodeError,
        >((ChunkView { kind: kind_of(code)->Some_0, data }, 12 + data.len() as int)),
        (chunk_bytes(code, data, trailer) + after).skip(12 + data.len() as int) == after,
        (chunk_bytes(code, data, trailer) + after).len() == 12 + data.len() + after.len(),
{
    reveal(chunk_bytes);
    reveal(first_chunk);
    let n = data.len() as int;
    let s = chunk_bytes(code, data, trailer) + after;
    assert(s =~= be_bytes(n) + (code + data + trailer + after));
    lemma_be_bytes_value(n, code + data + trailer + after);
    assert(s.subrange(4, 8) =~= code);
    assert(s.subrange(8, 8 + n) =~= data);
    assert(s.skip(12 + n) =~= after);
}

/// Reading the chunks of a chunk record followed by `after` comes to
/// reading those of `after` with the record's chunk on the list.
pub proof fn lemma_chunk_step(
    code: Seq<u8>,
    data: Seq<u8>,
    trailer: Seq<u8>,
    after: Seq<u8>,
    acc: Seq<ChunkView>,
)
    requires
        code.len() == 4,
        kind_of(code) is Some,
        data.len() < 0x1_0000_0000,
        trailer.len() == 4,
    ensures
        chunks_from(chunk_bytes(code, data, trailer) + after, acc) == chunks_from(
            after,
            acc.push(ChunkView { kind: kind_of(code)->Some_0, data }),
        ),
{
    lemma_first_chunk_read(code, data, trailer, after);
}

/// The kinds of the three type codes that an encoded file uses.
pub proof fn lemma_code_kinds()
    ensures
        kind_of(header_code()) == Some(ChunkKind::Header),
        kind_of(data_code()) == Some(ChunkKind::Data),
        kind_of(end_code()) == Some(ChunkKind::End),
{
    let palette = seq![0x50u8, 0x4Cu8, 0x54u8, 0x45u8];
    assert(data_code()[1] != header_code()[1]);
    assert(data_code()[0] != palette[0]);
    assert(end_code()[1] != header_code()[1]);
    assert(end_code()[0] != palette[0]);
    assert(end_code()[1] != data_code()[1]);
}

/// The three chunks of an encoded file are read as they were written.
pub proof fn lemma_encoded_chunks_read(header: Seq<u8>, stream: Seq<u8>, trailers: Seq<Seq<u8>>)
    requires
        header.len() == 13,
        stream.len() < 0x1_0000_0000,
        trailers.len() == 3,
        forall|i: int| 0 <= i < 3 ==> (#[trigger] trailers[i]).len() == 4,
    ensures
        spec_chunks(
            chunk_bytes(header_code(), header, trailers[0]) + chunk_bytes(
                data_code(),
                stream,
                trailers[1],
            ) + chunk_bytes(end_code(), Seq::empty(), trailers[2]),
        ) == Ok::<Seq<ChunkView>, DecodeError>(
            seq![
                ChunkView { kind: ChunkKind::Header, data: header },
                ChunkView { kind: ChunkKind::Data, data: stream },
                ChunkView { kind: ChunkKind::End, data: Seq::empty() },
            ],
        ),
{
    let c1 = chunk_bytes(header_code(), header, trailers[0]);
    let c2 = chunk_bytes(data_code(), stream, trailers[1]);
    let c3 = chunk_bytes(end_code(), Seq::empty(), trailers[2]);
    let v1 = ChunkView { kind: ChunkKind::Header, data: header };
    let v2 = ChunkView { kind: ChunkKind::Data, data: stream };
    let v3 = ChunkView { kind: ChunkKind::End, data: Seq::<u8>::empty() };
    let none = Seq::<u8>::empty();
    let acc0 = Seq::<ChunkView>::empty();
    assert(trailers[0].len() == 4 && trailers[1].len() == 4 && trailers[2].len() == 4);
    lemma_code_kinds();
    lemma_chunk_step(header_code(), header, trailers[0], c2 + c3, acc0);
    lemma_chunk_step(data_code(), stream, trailers[1], c3, acc0.push(v1));
    lemma_chunk_step(end_code(), none, trailers[2], none, acc0.push(v1).push(v2));
    assert(c3 + none =~= c3);
    assert(c1 + c2 + c3 =~= c1 + (c2 + c3));
    assert(acc0.push(v1).push(v2).push(v3) =~= seq![v1, v2, v3]);
    assert(chunks_from(none, seq![v1, v2, v3]) == Ok::<Seq<ChunkView>, DecodeError>(
        seq![v1, v2, v3],
    ));
}

/// The header payload of an encoded file is read as the header it was
/// made from, and that header is supported.
pub proof fn lemma_header_bytes_read(width: u32, height: u32)
    ensures
        header_bytes(width, height).len() == 13,
        spec_parse_header(header_bytes(width, height)) == Ok::<ImageHeader, DecodeError>(
            ImageHeader {
                width,
                height,
                bit_depth: 8,
                color_type: 2,
                compression_method: 0,
                filter_method: 0,
                interlace_method: 0,
            },
        ),
{
    let tail = seq![8u8, 2u8, 0u8, 0u8, 0u8];
    let data = header_bytes(width, height);
    assert(data =~= be_bytes(width as int) + (be_bytes(height as int) + tail));
    lemma_be_bytes_value(width as int, be_bytes(height as int) + tail);
    assert(data.skip(4) =~= be_bytes(height as int) + tail);
    lemma_be_bytes_value(height as int, tail);
}

/// The header that `header_bytes` encodes.
pub open spec fn plain_header(width: u32, height: u32) -> ImageHeader {
    ImageHeader {
        width,
        height,
        bit_depth: 8,
        color_type: 2,
        compression_method: 0,
        filter_method: 0,
        interlace_method: 0,
    }
}

/// The chunks of an encoded file.
pub open spec fn encoded_chunks(header: Seq<u8>, stream: Seq<u8>) -> Seq<ChunkView> {
    seq![
        ChunkView { kind: ChunkKind::Header, data: header },
        ChunkView { kind: ChunkKind::Data, data: stream },
        ChunkView { kind: ChunkKind::End, data: Seq::empty() },
    ]
}

/// The chunks of an encoded file yield its header and its stream.
pub proof fn lemma_encoded_chunks_valid(width: u32, height: u32, stream: Seq<u8>)
    ensures
        spec_validate(encoded_chunks(header_bytes(width, height), stream)) == Ok::<
            (ImageHeader, Seq<u8>),
            DecodeError,
        >((plain_header(width, height), stream)),
{
    let chunks = encoded_chunks(header_bytes(width, height), stream);
    lemma_header_bytes_read(width, height);
    let none = Seq::<u8>::empty();
    assert(gather_from(chunks, 2, none + stream) == Ok::<Seq<u8>, DecodeError>(none + stream));
    assert(gather_from(chunks, 1, none) == gather_from(chunks, 2, none + stream));
    assert(none + stream =~= stream);
}

/// After the signature, a file is read from its ninth byte on.
pub proof fn lemma_signature_read(rest: Seq<u8>)
    ensures
        first_mismatch(SIGNATURE@ + rest, 0) is None,
        (SIGNATURE@ + rest).skip(8) == rest,
{
    let file = SIGNATURE@ + rest;
    assert(SIGNATURE@.len() == 8);
    assert(agrees_before(file, 8));
    lemma_no_mismatch(file, 0);
    assert(file.skip(8) =~= rest);
}

/// The scanlines of an encoded image are reconstructed to its pixels.
pub proof fn lemma_encoded_scanlines_read(image: ImageView, types: Seq<u8>)
    requires
        image.pixels.len() == image.width * image.height * 3,
        types.len() == image.height,
        forall|r: int| 0 <= r < types.len() ==> #[trigger] types[r] <= 4,
    ensures
        spec_unfilter(
            filter_rows(image.pixels, image.width * 3, image.height as int, types),
            image.width as int,
            image.height as int,
        ) == Ok::<Seq<u8>, DecodeError>(image.pixels),
{
    let w = image.width as int;
    let h = image.height as int;
    assert(h * (w * 3) == w * h * 3) by (nonlinear_arith);
    lemma_unfilter_inverts_filter_rows(image.pixels, w * 3, h, types);
    lemma_filter_rows_len(image.pixels, w * 3, h, types);
    assert(image.pixels.take(h * (w * 3)) =~= image.pixels);
}

/// Decoding undoes encoding: a file made of the signature, the header, the
/// scanlines of an image in stored blocks and the end chunk decodes to
/// that image, whichever of the five filter types was picked for each row
/// and whatever the chunk trailers hold.
pub proof fn lemma_decoding_undoes_encoding(
    image: ImageView,
    types: Seq<u8>,
    trailers: Seq<Seq<u8>>,
)
    requires
        image.pixels.len() == image.width * image.height * 3,
        types.len() == image.height,
        forall|r: int| 0 <= r < types.len() ==> #[trigger] types[r] <= 4,
        trailers.len() == 3,
        forall|i: int| 0 <= i < 3 ==> (#[trigger] trailers[i]).len() == 4,
        image_stream(image, types).len() < 0x1_0000_0000,
    ensures
        spec_read_png(encode_png(image, types, trailers)) == Ok::<ImageView, DecodeError>(image),
{
    let header = header_bytes(image.width, image.height);
    let raw = filter_rows(image.pixels, image.width * 3, image.height as int, types);
    let stream = image_stream(image, types);
    let rest = chunk_bytes(header_code(), header, trailers[0]) + chunk_bytes(
        data_code(),
        stream,
        trailers[1],
    ) + chunk_bytes(end_code(), Seq::empty(), trailers[2]);
    let file = encode_png(image, types, trailers);
    assert(file =~= SIGNATURE@ + rest);
    lemma_signature_read(rest);
    lemma_header_bytes_read(image.width, image.height);
    lemma_encoded_chunks_read(header, stream, trailers);
    lemma_encoded_chunks_valid(image.width, image.height, stream);
    lemma_stored_stream_round_trip(raw);
    lemma_encoded_scanlines_read(image, types);
    assert(spec_chunks(file.skip(8)) == Ok::<Seq<ChunkView>, DecodeError>(
        encoded_chunks(header, stream),
    ));
    assert(spec_inflate(stream) == Ok::<Seq<u8>, DecodeError>(raw));
}

/// A file that holds the whole signature shows no mismatch.
pub proof fn lemma_no_mismatch(file: Seq<u8>, k: int)
    requires
        0 <= k <= 8,
        agrees_before(file, 8),
    ensures
        first_mismatch(file, k) is None,
    decreases 8 - k,
{
    if k < 8 {
        assert(file[k] == SIGNATURE@[k]);
        lemma_no_mismatch(file, k + 1);
    }
}

/// One step of compressed data, as an encoder chooses it: a byte as it
/// is, or a copy of earlier output.
pub enum Token {
    Literal { byte: u8 },
    Match {
        /// The length symbol, 257 to 285.
        length_symbol: u16,
        /// The value of the extra bits after the length symbol.
        length_extra: u16,
        /// The distance symbol, 0 to 29.
        distance_symbol: u16,
        /// The value of the extra bits after the distance symbol.
        distance_extra: u16,
    },
}

/// The code of symbol `s` stands at `pos`.
pub open spec fn code_stands(data: Seq<u8>, pos: int, lengths: Seq<u8>, s: int) -> bool {
    &&& 0 <= s < lengths.len()
    &&& 1 <= lengths[s] <= MAX_CODE_LENGTH
    &&& pos + lengths[s] <= total_bits(data)
    &&& code_value(data, pos, lengths[s] as int) == code_of(lengths, s)
}

/// A field of `n` bits with the value `v` stands at `pos`.
pub open spec fn field_stands(data: Seq<u8>, pos: int, n: int, v: int) -> bool {
    &&& pos + n <= total_bits(data)
    &&& bits_value(data, pos, n) == v
}

/// The number of bits that token `t` takes up.
pub open spec fn token_bits(lit: Seq<u8>, dist: Seq<u8>, t: Token) -> int {
    match t {
        Token::Literal { byte } => lit[byte as int] as int,
        Token::Match { length_symbol, length_extra, distance_symbol, distance_extra } => {
            lit[length_symbol as int] + LENGTH_EXTRA@[length_symbol - 257]
                + dist[distance_symbol as int] + DIST_EXTRA@[distance_symbol as int]
        },
    }
}

/// Token `t` stands at `pos`: its symbols in the codes of `lit` and
/// `dist`, each followed by its extra bits.
pub open spec fn token_stands(
    data: Seq<u8>,
    pos: int,
    lit: Seq<u8>,
    dist: Seq<u8>,
    t: Token,
) -> bool {
    match t {
        Token::Literal { byte } => code_stands(data, pos, lit, byte as int),
        Token::Match { length_symbol, length_extra, distance_symbol, distance_extra } => {
            let at_extra = pos + lit[length_symbol as int];
            let at_distance = at_extra + LENGTH_EXTRA@[length_symbol - 257];
            let at_distance_extra = at_distance + dist[distance_symbol as int];
            &&& 257 <= length_symbol <= 285
            &&& distance_symbol < 30
            &&& code_stands(data, pos, lit, length_symbol as int)
            &&& field_stands(
                data,
                at_extra,
                LENGTH_EXTRA@[length_symbol - 257] as int,
                length_extra as int,
            )
            &&& code_stands(data, at_distance, dist, distance_symbol as int)
            &&& field_stands(
                data,
                at_distance_extra,
                DIST_EXTRA@[distance_symbol as int] as int,
                distance_extra as int,
            )
        },
    }
}

/// The tokens stand at `pos` one after the other, followed by the
/// end-of-block symbol.
pub open spec fn tokens_stand(
    data: Seq<u8>,
    pos: int,
    lit: Seq<u8>,
    dist: Seq<u8>,
    tokens: Seq<Token>,
) -> bool
    decreases tokens.len(),
{
    if tokens.len() == 0 {
        code_stands(data, pos, lit, END_OF_BLOCK as int)
    } else {
        token_stands(data, pos, lit, dist, tokens[0]) && tokens_stand(
            data,
            pos + token_bits(lit, dist, tokens[0]),
            lit,
            dist,
            tokens.skip(1),
        )
    }
}

/// The position after the tokens and the end-of-block symbol.
pub open spec fn tokens_end(pos: int, lit: Seq<u8>, dist: Seq<u8>, tokens: Seq<Token>) -> int
    decreases tokens.len(),
{
    if tokens.len() == 0 {
        pos + lit[END_OF_BLOCK as int]
    } else {
        tokens_end(pos + token_bits(lit, dist, tokens[0]), lit, dist, tokens.skip(1))
    }
}

/// `out` with what token `t` stands for appended.
pub open spec fn apply_token(out: Seq<u8>, t: Token) -> Seq<u8> {
    match t {
        Token::Literal { byte } => out.push(byte),
        Token::Match { length_symbol, length_extra, distance_symbol, distance_extra } => copy_back(
            out,
            DIST_BASE@[distance_symbol as int] + distance_extra,
            LENGTH_BASE@[length_symbol - 257] + length_extra,
        ),
    }
}

/// `out` with what the tokens stand for appended.
pub open spec fn expand(out: Seq<u8>, tokens: Seq<Token>) -> Seq<u8>
    decreases tokens.len(),
{
    if tokens.len() == 0 {
        out
    } else {
        expand(apply_token(out, tokens[0]), tokens.skip(1))
    }
}

/// No match among the tokens reaches back past the start of the output.
pub open spec fn matches_in_reach(out: Seq<u8>, tokens: Seq<Token>) -> bool
    decreases tokens.len(),
{
    if tokens.len() == 0 {
        true
    } else {
        &&& tokens[0] matches Token::Match { distance_symbol, distance_extra, .. }
            ==> DIST_BASE@[distance_symbol as int] + distance_extra <= out.len()
        &&& matches_in_reach(apply_token(out, tokens[0]), tokens.skip(1))
    }
}

/// Decompression undoes compression, whatever the encoder's choices:
/// where tokens stand in the data in the codes of `lit` and `dist`, the
/// decoder appends to the output exactly what the tokens stand for, and
/// stops right after the end-of-block symbol.
pub proof fn lemma_tokens_decode(
    data: Seq<u8>,
    pos: int,
    lit: Seq<u8>,
    dist: Seq<u8>,
    out: Seq<u8>,
    tokens: Seq<Token>,
)
    requires
        tokens_stand(data, pos, lit, dist, tokens),
        matches_in_reach(out, tokens),
    ensures
        spec_codes(data, pos, lit, dist, out) == Ok::<(int, Seq<u8>), DecodeError>(
            (tokens_end(pos, lit, dist, tokens), expand(out, tokens)),
        ),
    decreases tokens.len(),
{
    if tokens.len() == 0 {
        lemma_code_decodes_to_its_symbol(data, pos, lit, END_OF_BLOCK as int);
    } else {
        let t = tokens[0];
        let next = pos + token_bits(lit, dist, t);
        match t {
            Token::Literal { byte } => {
                lemma_code_decodes_to_its_symbol(data, pos, lit, byte as int);
            },
            Token::Match { length_symbol, length_extra, distance_symbol, distance_extra } => {
                let at_extra = pos + lit[length_symbol as int];
                let at_distance = at_extra + LENGTH_EXTRA@[length_symbol - 257];
                let at_distance_extra = at_distance + dist[distance_symbol as int];
                lemma_code_decodes_to_its_symbol(data, pos, lit, length_symbol as int);
                lemma_code_decodes_to_its_symbol(data, at_distance, dist, distance_symbol as int);
                lemma_bits_value_range(
                    data,
                    at_distance_extra,
                    DIST_EXTRA@[distance_symbol as int] as int,
                );
                lemma_dist_range(distance_symbol as int, distance_extra as int);
                assert(spec_match(data, at_extra, length_symbol as int, dist) == Ok::<
                    (int, int, int),
                    DecodeError,
                >(
                    (
                        LENGTH_BASE@[length_symbol - 257] + length_extra,
                        DIST_BASE@[distance_symbol as int] + distance_extra,
                        next,
                    ),
                ));
            },
        }
        lemma_tokens_decode(data, next, lit, dist, apply_token(out, t), tokens.skip(1));
    }
}

} // verus!
