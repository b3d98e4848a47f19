//! Error kinds reported by the decoder.
use vstd::prelude::*;

verus! {

/// A field of the image header whose value the decoder does not support.
#[derive(Clone, Copy, Debug, PartialEq, Eq, Structural)]
pub enum HeaderField {
    /// Must be 8.
    BitDepth,
    /// Must be 2, truecolor.
    ColorType,
    /// Must be 0.
    CompressionMethod,
    /// Must be 0.
    FilterMethod,
    /// Must be 0, no interlacing.
    InterlaceMethod,
}

/// A feature of the format that the decoder does not support.
#[derive(Clone, Copy, Debug, PartialEq, Eq, Structural)]
pub enum Feature {
    /// A palette chunk.
    Palette,
}

/// Why a stream was found to be corrupt.
#[derive(Clone, Copy, Debug, PartialEq, Eq, Structural)]
pub enum CorruptReason {
    /// The first chunk is not the image header.
    MissingHeader,
    /// A block announces the reserved block type 3.
    InvalidBlockType,
    /// A code length above 15, or an alphabet of more than 288 symbols.
    InvalidCodeLength,
    /// A set of code lengths claims more codes than its bit lengths allow.
    OversubscribedCode,
    /// The upcoming bits match no code of the Huffman code in use.
    UnassignedCode,
    /// A decoded symbol lies outside its alphabet.
    InvalidSymbol,
    /// A repeat-previous code length stands first, with nothing to repeat.
    NoPreviousLength,
    /// A run of code lengths extends past the announced number of lengths.
    LengthOverrun,
    /// A scanline starts with a filter type above 4.
    InvalidFilterType,
}

/// The specific kind of failure of a decode.
#[derive(Clone, Copy, Debug, PartialEq, Eq, Structural)]
pub enum DecodeError {
    /// The signature differs from the PNG signature, first at `offset`.
    InvalidSignature { offset: usize },
    /// The input ends before a field, a payload, a code or a block does.
    TruncatedInput,
    /// A chunk has an unknown type that is not marked ancillary.
    InvalidChunkType,
    /// A header chunk follows the first one.
    DuplicateHeader,
    /// The named header field has a value outside the supported subset.
    UnsupportedFormat(HeaderField),
    /// The file uses the named feature, which the decoder does not have.
    UnsupportedFeature(Feature),
    /// The stream header names another method than 8 or a preset dictionary.
    UnsupportedCompression,
    /// A stored block's length is not followed by its complement.
    ChecksumMismatch,
    /// The stream breaks a rule of its format.
    CorruptStream(CorruptReason),
    /// A match reaches back past the start of the output or of the window.
    InvalidBackReference,
    /// The decompressed data is not `height` scanlines of `width * 3 + 1` bytes.
    SizeMismatch,
}

impl HeaderField {
    /// The name of the field as it stands in the header layout.
    pub open spec fn spec_name(self) -> Seq<char> {
        match self {
            HeaderField::BitDepth => "bit_depth"@,
            HeaderField::ColorType => "color_type"@,
            HeaderField::CompressionMethod => "compression_method"@,
            HeaderField::FilterMethod => "filter_method"@,
            HeaderField::InterlaceMethod => "interlace_method"@,
        }
    }

    /// The name of the field, for messages.
    pub fn name(&self) -> (r: &'static str)
        ensures
            r@ == self.spec_name(),
    {
        match self {
            HeaderField::BitDepth => "bit_depth",
            HeaderField::ColorType => "color_type",
            HeaderField::CompressionMethod => "compression_method",
            HeaderField::FilterMethod => "filter_method",
            HeaderField::InterlaceMethod => "interlace_method",
        }
    }
}

impl Feature {
    /// The name of the feature.
    pub open spec fn spec_name(self) -> Seq<char> {
        match self {
            Feature::Palette => "palette"@,
        }
    }

    /// The name of the feature, for messages.
    pub fn name(&self) -> (r: &'static str)
        ensures
            r@ == self.spec_name(),
    {
        match self {
            Feature::Palette => "palette",
        }
    }
}

} // verus!
