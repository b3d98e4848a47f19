//! The decoder as a whole: from the bytes of a PNG file to its pixels.
use vstd::prelude::*;
use crate::chunk::{
    lemma_chunks_payload_bounded, lemma_payload_len_monotonic, payload_len, read_chunks,
    spec_chunks, Chunk, ChunkView,
};
use crate::error::DecodeError;
use crate::filter::{lemma_unfilter_rows_len, spec_unfilter, unfilter};
use crate::header::{lemma_gather_bounded, spec_validate, validate, ImageHeader};
use crate::inflate::{decompress_image, lemma_inflate_output_bounded, spec_inflate};

verus! {

/// The eight bytes that every PNG file starts with.
pub const SIGNATURE: [u8; 8] = [137, 80, 78, 71, 13, 10, 26, 10];

/// A decoded image: three bytes for each pixel, red, green and blue, row
/// by row from the top.
#[derive(Debug)]
pub struct Image {
    pub width: u32,
    pub height: u32,
    pub pixels: Vec<u8>,
}

/// An image with its pixels as a sequence.
pub struct ImageView {
    pub width: u32,
    pub height: u32,
    pub pixels: Seq<u8>,
}

impl View for Image {
    type V = ImageView;

    open spec fn view(&self) -> ImageView {
        ImageView { width: self.width, height: self.height, pixels: self.pixels@ }
    }
}

impl Image {
    /// There are three bytes for each pixel.
    pub open spec fn wf(&self) -> bool {
        self.pixels@.len() == self.width * self.height * 3
    }

    /// Puts the size from the header and the pixel bytes together.
    pub fn assemble(header: &ImageHeader, pixels: Vec<u8>) -> (r: Image)
        ensures
            r@ == (ImageView { width: header.width, height: header.height, pixels: pixels@ }),
    {
        Image { width: header.width, height: header.height, pixels }
    }
}

/// The first position from `i` on, below 8, at which `file` ends or
/// differs from the signature.
pub open spec fn first_mismatch(file: Seq<u8>, i: int) -> Option<int>
    decreases 8 - i,
{
    if i < 0 || i >= 8 {
        None
    } else if i >= file.len() || file[i] != SIGNATURE@[i] {
        Some(i)
    } else {
        first_mismatch(file, i + 1)
    }
}

/// What the bytes of a file decode to.
///
/// The signature is checked, the rest is split into chunks, the chunks
/// yield the header and the compressed stream, the stream is decompressed,
/// and the scanline filters are reversed; the first stage that fails gives
/// the error.
pub open spec fn spec_read_png(file: Seq<u8>) -> Result<ImageView, DecodeError> {
    match first_mismatch(file, 0) {
        Some(i) => Err(DecodeError::InvalidSignature { offset: i as usize }),
        None => match spec_chunks(file.skip(8)) {
            Err(e) => Err(e),
            Ok(chunks) => match spec_validate(chunks) {
                Err(e) => Err(e),
                Ok((header, stream)) => match spec_inflate(stream) {
                    Err(e) => Err(e),
                    Ok(raw) => match spec_unfilter(raw, header.width as int, header.height as int) {
                        Err(e) => Err(e),
                        Ok(pixels) => Ok(
                            ImageView { width: header.width, height: header.height, pixels },
                        ),
                    },
                },
            },
        },
    }
}

/// `file` holds the first `i` bytes of the signature.
pub open spec fn agrees_before(file: Seq<u8>, i: int) -> bool {
    &&& i <= file.len()
    &&& forall|j: int| 0 <= j < i ==> #[trigger] file[j] == SIGNATURE@[j]
}

/// If `file` agrees with the signature before position `i` and not at it,
/// scanning from any `k` up to `i` finds the mismatch at `i`.
pub proof fn lemma_first_mismatch_at(file: Seq<u8>, k: int, i: int)
    requires
        0 <= k <= i < 8,
        i >= file.len() || file[i] != SIGNATURE@[i],
        agrees_before(file, i),
    ensures
        first_mismatch(file, k) == Some(i),
    decreases i - k,
{
    if k < i {
        assert(file[k] == SIGNATURE@[k]);
        lemma_first_mismatch_at(file, k + 1, i);
    }
}

/// A file whose first eight bytes differ from the signature at position
/// `i` and nowhere before it is refused with `InvalidSignature` at `i`,
/// whatever else it holds.
pub proof fn lemma_wrong_signature_byte_refused(file: Seq<u8>, i: int)
    requires
        0 <= i < 8,
        i < file.len(),
        file[i] != SIGNATURE@[i],
        agrees_before(file, i),
    ensures
        spec_read_png(file) == Err::<ImageView, DecodeError>(
            DecodeError::InvalidSignature { offset: i as usize },
        ),
{
    lemma_first_mismatch_at(file, 0, i);
}

/// A file in which the scan finds no mismatch holds the whole signature.
pub proof fn lemma_signature_present(file: Seq<u8>, k: int)
    requires
        0 <= k < 8,
        first_mismatch(file, k) is None,
    ensures
        file.len() >= 8,
    decreases 8 - k,
{
    if k < 7 {
        lemma_signature_present(file, k + 1);
    }
}

/// Whatever the file holds, an image that it decodes to is bounded by the
/// length of the file: at most 2064 pixel bytes for each byte of the file.
pub proof fn lemma_image_size_bounded(file: Seq<u8>)
    ensures
        match spec_read_png(file) {
            Ok(image) => image.pixels.len() == image.width * image.height * 3
                && image.pixels.len() <= 2064 * file.len(),
            Err(_) => true,
        },
{
    if first_mismatch(file, 0) is None {
        lemma_signature_present(file, 0);
        if let Ok(chunks) = spec_chunks(file.skip(8)) {
            lemma_chunks_payload_bounded(file.skip(8), Seq::empty());
            assert(payload_len(Seq::<ChunkView>::empty(), 0) == 0);
            assert(payload_len(chunks, chunks.len() as int) <= file.len());
            if let Ok((header, stream)) = spec_validate(chunks) {
                lemma_gather_bounded(chunks, 1, Seq::empty());
                lemma_payload_len_monotonic(chunks, 1, chunks.len() as int);
                lemma_payload_len_monotonic(chunks, 0, 1);
                assert(stream.len() <= file.len());
                if let Ok(raw) = spec_inflate(stream) {
                    lemma_inflate_output_bounded(stream);
                    assert(raw.len() <= 2064 * file.len());
                    let w = header.width as int;
                    let h = header.height as int;
                    if let Ok(pixels) = spec_unfilter(raw, w, h) {
                        lemma_unfilter_rows_len(raw, w * 3, h);
                        assert(h * (w * 3) <= h * (w * 3 + 1)) by (nonlinear_arith)
                            requires
                                h >= 0,
                        ;
                        assert(h * (w * 3) == w * h * 3) by (nonlinear_arith);
                        assert(pixels.len() == h * (w * 3));
                        assert(raw.len() == h * (w * 3 + 1));
                    }
                }
            }
        }
    }
}

/// Checks that `file` starts with the signature.
pub fn check_signature(file: &[u8]) -> (r: Result<(), DecodeError>)
    ensures
        match first_mismatch(file@, 0) {
            Some(i) => r == Err::<(), DecodeError>(
                DecodeError::InvalidSignature { offset: i as usize },
            ),
            None => r is Ok && file@.len() >= 8,
        },
{
    let mut i: usize = 0;
    while i < 8
        invariant
            i <= 8,
            i <= file@.len(),
            first_mismatch(file@, i as int) == first_mismatch(file@, 0),
        decreases 8 - i,
    {
        if i >= file.len() || file[i] != SIGNATURE[i] {
            return Err(DecodeError::InvalidSignature { offset: i });
        }
        i = i + 1;
    }
    Ok(())
}

/// Decodes the bytes of a PNG file.
///
/// Every input gives either the image or one specific error: nothing is
/// asked of `bytes`. The result is the one that `spec_read_png` defines.
pub fn decode(bytes: &[u8]) -> (r: Result<Image, DecodeError>)
    ensures
        match spec_read_png(bytes@) {
            Ok(image) => r is Ok && r->Ok_0@ == image && r->Ok_0.wf(),
            Err(e) => r is Err && r->Err_0 == e,
        },
{
    check_signature(bytes)?;
    let rest: &[u8] = vstd::slice::slice_subrange(bytes, 8, bytes.len());
    assert(rest@ =~= bytes@.skip(8));
    let chunks: Vec<Chunk> = read_chunks(rest)?;
    let (header, stream) = validate(&chunks)?;
    let raw: Vec<u8> = decompress_image(stream.as_slice())?;
    let pixels: Vec<u8> = unfilter(raw.as_slice(), header.width, header.height)?;
    Ok(Image::assemble(&header, pixels))
}

/// Decodes a PNG file that was read into memory, as `decode` does.
pub fn read_png(file: Vec<u8>) -> (r: Result<Image, DecodeError>)
    ensures
        match spec_read_png(file@) {
            Ok(image) => r is Ok && r->Ok_0@ == image && r->Ok_0.wf(),
            Err(e) => r is Err && r->Err_0 == e,
        },
{
    decode(file.as_slice())
}

} // verus!
