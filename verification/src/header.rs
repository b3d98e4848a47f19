//! The image header and the rules on the order and kind of chunks.
use vstd::prelude::*;
use crate::bytes::{append_bytes, be_u32, read_u32, read_u8};
use crate::chunk::{
    chunk_views, lemma_payload_len_monotonic, payload_len, Chunk, ChunkKind, ChunkView,
};
use crate::error::{CorruptReason, DecodeError, Feature, HeaderField};

verus! {

/// The fields of the header chunk, in the order of its payload.
#[derive(Clone, Copy, Debug, PartialEq, Eq, Structural)]
pub struct ImageHeader {
    pub width: u32,
    pub height: u32,
    pub bit_depth: u8,
    pub color_type: u8,
    pub compression_method: u8,
    pub filter_method: u8,
    pub interlace_method: u8,
}

/// The header that a payload of at least thirteen bytes holds; bytes past
/// the thirteenth are not read.
pub open spec fn spec_parse_header(data: Seq<u8>) -> Result<ImageHeader, DecodeError> {
    if data.len() < 13 {
        Err(DecodeError::TruncatedInput)
    } else {
        Ok(
            ImageHeader {
                width: be_u32(data) as u32,
                height: be_u32(data.skip(4)) as u32,
                bit_depth: data[8],
                color_type: data[9],
                compression_method: data[10],
                filter_method: data[11],
                interlace_method: data[12],
            },
        )
    }
}

/// The first field of `h`, in payload order, whose value is not supported:
/// the decoder takes 8-bit truecolor, compression and filter method 0, and
/// no interlacing.
pub open spec fn unsupported_field(h: ImageHeader) -> Option<HeaderField> {
    if h.bit_depth != 8 {
        Some(HeaderField::BitDepth)
    } else if h.color_type != 2 {
        Some(HeaderField::ColorType)
    } else if h.compression_method != 0 {
        Some(HeaderField::CompressionMethod)
    } else if h.filter_method != 0 {
        Some(HeaderField::FilterMethod)
    } else if h.interlace_method != 0 {
        Some(HeaderField::InterlaceMethod)
    } else {
        None
    }
}

/// The compressed stream gathered from `chunks[i..]` onto `acc`: data
/// chunks are appended in order, ancillary chunks are passed over, the end
/// chunk stops the walk, and a header or palette chunk is an error.
pub open spec fn gather_from(chunks: Seq<ChunkView>, i: int, acc: Seq<u8>) -> Result<
    Seq<u8>,
    DecodeError,
>
    decreases chunks.len() - i,
{
    if i < 0 || i >= chunks.len() {
        Ok(acc)
    } else {
        match chunks[i].kind {
            ChunkKind::Header => Err(DecodeError::DuplicateHeader),
            ChunkKind::Palette => Err(DecodeError::UnsupportedFeature(Feature::Palette)),
            ChunkKind::Data => gather_from(chunks, i + 1, acc + chunks[i].data),
            ChunkKind::End => Ok(acc),
            ChunkKind::Ancillary => gather_from(chunks, i + 1, acc),
        }
    }
}

/// The header and compressed stream of a chunk sequence.
///
/// The sequence must start with a header chunk whose fields are supported;
/// the chunks after it are walked as `gather_from` says.
pub open spec fn spec_validate(chunks: Seq<ChunkView>) -> Result<
    (ImageHeader, Seq<u8>),
    DecodeError,
> {
    if chunks.len() == 0 {
        Err(DecodeError::TruncatedInput)
    } else if chunks[0].kind != ChunkKind::Header {
        Err(DecodeError::CorruptStream(CorruptReason::MissingHeader))
    } else {
        match spec_parse_header(chunks[0].data) {
            Err(e) => Err(e),
            Ok(h) => match unsupported_field(h) {
                Some(f) => Err(DecodeError::UnsupportedFormat(f)),
                None => match gather_from(chunks, 1, Seq::empty()) {
                    Err(e) => Err(e),
                    Ok(stream) => Ok((h, stream)),
                },
            },
        }
    }
}

/// The chunk sequence starts with a header chunk that is complete and
/// supported.
pub open spec fn starts_with_supported_header(chunks: Seq<ChunkView>) -> bool {
    &&& chunks.len() > 0
    &&& chunks[0].kind == ChunkKind::Header
    &&& spec_parse_header(chunks[0].data) is Ok
    &&& unsupported_field(spec_parse_header(chunks[0].data)->Ok_0) is None
}

/// Every chunk from `i` up to `j` holds data or is ancillary.
pub open spec fn only_data_between(chunks: Seq<ChunkView>, i: int, j: int) -> bool {
    forall|k: int|
        i <= k < j ==> (#[trigger] chunks[k]).kind == ChunkKind::Data || chunks[k].kind
            == ChunkKind::Ancillary
}

/// The walk over the chunks reaches chunk `j` if only data and ancillary
/// chunks stand before it.
pub proof fn lemma_gather_reaches(chunks: Seq<ChunkView>, i: int, j: int, acc: Seq<u8>)
    requires
        0 <= i <= j < chunks.len(),
        only_data_between(chunks, i, j),
    ensures
        chunks[j].kind == ChunkKind::Header ==> gather_from(chunks, i, acc) == Err::<
            Seq<u8>,
            DecodeError,
        >(DecodeError::DuplicateHeader),
        chunks[j].kind == ChunkKind::Palette ==> gather_from(chunks, i, acc) == Err::<
            Seq<u8>,
            DecodeError,
        >(DecodeError::UnsupportedFeature(Feature::Palette)),
    decreases j - i,
{
    if i < j {
        assert(chunks[i].kind == ChunkKind::Data || chunks[i].kind == ChunkKind::Ancillary);
        if chunks[i].kind == ChunkKind::Data {
            lemma_gather_reaches(chunks, i + 1, j, acc + chunks[i].data);
        } else {
            lemma_gather_reaches(chunks, i + 1, j, acc);
        }
    }
}

/// A second header chunk is refused with `DuplicateHeader`, where the
/// first is complete and supported and only data and ancillary chunks
/// stand between the two.
pub proof fn lemma_second_header_refused(chunks: Seq<ChunkView>, j: int)
    requires
        starts_with_supported_header(chunks),
        1 <= j < chunks.len(),
        chunks[j].kind == ChunkKind::Header,
        only_data_between(chunks, 1, j),
    ensures
        spec_validate(chunks) == Err::<(ImageHeader, Seq<u8>), DecodeError>(
            DecodeError::DuplicateHeader,
        ),
{
    lemma_gather_reaches(chunks, 1, j, Seq::empty());
}

/// A palette chunk is refused with `UnsupportedFeature`, where the header
/// is complete and supported and only data and ancillary chunks stand
/// between the two.
pub proof fn lemma_palette_refused(chunks: Seq<ChunkView>, j: int)
    requires
        starts_with_supported_header(chunks),
        1 <= j < chunks.len(),
        chunks[j].kind == ChunkKind::Palette,
        only_data_between(chunks, 1, j),
    ensures
        spec_validate(chunks) == Err::<(ImageHeader, Seq<u8>), DecodeError>(
            DecodeError::UnsupportedFeature(Feature::Palette),
        ),
{
    lemma_gather_reaches(chunks, 1, j, Seq::empty());
}

/// A header with a bit depth other than 8 is refused with
/// `UnsupportedFormat`, naming the bit depth, whatever follows it.
pub proof fn lemma_bit_depth_refused(chunks: Seq<ChunkView>)
    requires
        chunks.len() > 0,
        chunks[0].kind == ChunkKind::Header,
        chunks[0].data.len() >= 13,
        chunks[0].data[8] != 8,
    ensures
        spec_validate(chunks) == Err::<(ImageHeader, Seq<u8>), DecodeError>(
            DecodeError::UnsupportedFormat(HeaderField::BitDepth),
        ),
{
}

/// A header with bit depth 8 and a colour type other than 2 is refused
/// with `UnsupportedFormat`, naming the colour type, whatever follows it.
pub proof fn lemma_color_type_refused(chunks: Seq<ChunkView>)
    requires
        chunks.len() > 0,
        chunks[0].kind == ChunkKind::Header,
        chunks[0].data.len() >= 13,
        chunks[0].data[8] == 8,
        chunks[0].data[9] != 2,
    ensures
        spec_validate(chunks) == Err::<(ImageHeader, Seq<u8>), DecodeError>(
            DecodeError::UnsupportedFormat(HeaderField::ColorType),
        ),
{
}

/// The compressed stream is no longer than the payloads of the chunks
/// that it is gathered from.
pub proof fn lemma_gather_bounded(chunks: Seq<ChunkView>, i: int, acc: Seq<u8>)
    requires
        0 <= i <= chunks.len(),
    ensures
        match gather_from(chunks, i, acc) {
            Ok(stream) => stream.len() <= acc.len() + payload_len(chunks, chunks.len() as int)
                - payload_len(chunks, i),
            Err(_) => true,
        },
    decreases chunks.len() - i,
{
    lemma_payload_len_monotonic(chunks, i, chunks.len() as int);
    if i < chunks.len() {
        lemma_payload_len_monotonic(chunks, i + 1, chunks.len() as int);
        if chunks[i].kind == ChunkKind::Data {
            lemma_gather_bounded(chunks, i + 1, acc + chunks[i].data);
        } else if chunks[i].kind == ChunkKind::Ancillary {
            lemma_gather_bounded(chunks, i + 1, acc);
        }
    }
}

/// Decodes the payload of a header chunk.
pub fn parse_header(data: &[u8]) -> (r: Result<ImageHeader, DecodeError>)
    ensures
        r == spec_parse_header(data@),
{
    if data.len() < 13 {
        return Err(DecodeError::TruncatedInput);
    }
    let mut rest: &[u8] = data;
    let width: u32 = read_u32(&mut rest)?;
    assert(rest@ =~= data@.skip(4));
    let height: u32 = read_u32(&mut rest)?;
    assert(rest@ =~= data@.skip(8));
    let bit_depth: u8 = read_u8(&mut rest)?;
    assert(rest@ =~= data@.skip(9));
    let color_type: u8 = read_u8(&mut rest)?;
    assert(rest@ =~= data@.skip(10));
    let compression_method: u8 = read_u8(&mut rest)?;
    assert(rest@ =~= data@.skip(11));
    let filter_method: u8 = read_u8(&mut rest)?;
    assert(rest@ =~= data@.skip(12));
    let interlace_method: u8 = read_u8(&mut rest)?;
    Ok(
        ImageHeader {
            width,
            height,
            bit_depth,
            color_type,
            compression_method,
            filter_method,
            interlace_method,
        },
    )
}

/// Checks the header against the supported subset of the format.
pub fn check_supported(h: &ImageHeader) -> (r: Result<(), DecodeError>)
    ensures
        match unsupported_field(*h) {
            Some(f) => r == Err::<(), DecodeError>(DecodeError::UnsupportedFormat(f)),
            None => r is Ok,
        },
{
    if h.bit_depth != 8 {
        Err(DecodeError::UnsupportedFormat(HeaderField::BitDepth))
    } else if h.color_type != 2 {
        Err(DecodeError::UnsupportedFormat(HeaderField::ColorType))
    } else if h.compression_method != 0 {
        Err(DecodeError::UnsupportedFormat(HeaderField::CompressionMethod))
    } else if h.filter_method != 0 {
        Err(DecodeError::UnsupportedFormat(HeaderField::FilterMethod))
    } else if h.interlace_method != 0 {
        Err(DecodeError::UnsupportedFormat(HeaderField::InterlaceMethod))
    } else {
        Ok(())
    }
}

/// Checks a chunk sequence and extracts the header and the compressed
/// stream, as `spec_validate` defines them.
pub fn validate(chunks: &Vec<Chunk>) -> (r: Result<(ImageHeader, Vec<u8>), DecodeError>)
    ensures
        match r {
            Ok((h, stream)) => spec_validate(chunk_views(chunks@)) == Ok::<
                (ImageHeader, Seq<u8>),
                DecodeError,
            >((h, stream@)),
            Err(e) => spec_validate(chunk_views(chunks@)) == Err::<
                (ImageHeader, Seq<u8>),
                DecodeError,
            >(e),
        },
{
    let ghost views = chunk_views(chunks@);
    if chunks.len() == 0 {
        return Err(DecodeError::TruncatedInput);
    }
    let first: &Chunk = &chunks[0];
    match first.kind {
        ChunkKind::Header => {},
        _ => {
            return Err(DecodeError::CorruptStream(CorruptReason::MissingHeader));
        },
    }
    let header: ImageHeader = parse_header(first.data)?;
    check_supported(&header)?;
    let mut stream: Vec<u8> = Vec::new();
    let mut i: usize = 1;
    while i < chunks.len()
        invariant
            1 <= i <= chunks@.len(),
            views == chunk_views(chunks@),
            views[0].kind == ChunkKind::Header,
            spec_parse_header(views[0].data) == Ok::<ImageHeader, DecodeError>(header),
            unsupported_field(header) is None,
            gather_from(views, i as int, stream@) == gather_from(views, 1, Seq::empty()),
        decreases chunks@.len() - i,
    {
        let c: &Chunk = &chunks[i];
        assert(views[i as int] == c@);
        match c.kind {
            ChunkKind::Header => { return Err(DecodeError::DuplicateHeader); },
            ChunkKind::Palette => {
                return Err(DecodeError::UnsupportedFeature(Feature::Palette));
            },
            ChunkKind::Data => { append_bytes(&mut stream, c.data); },
            ChunkKind::End => { return Ok((header, stream)); },
            ChunkKind::Ancillary => {},
        }
        i = i + 1;
    }
    Ok((header, stream))
}

} // verus!
