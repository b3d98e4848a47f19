//! Splitting the bytes that follow the signature into chunk records.
use vstd::prelude::*;
use crate::bytes::{be_u32, read_bytes, read_u32};
use crate::error::DecodeError;

verus! {

/// What a chunk is, as far as the decoder tells chunks apart.
#[derive(Clone, Copy, Debug, PartialEq, Eq, Structural)]
pub enum ChunkKind {
    /// `IHDR`
    Header,
    /// `PLTE`
    Palette,
    /// `IDAT`
    Data,
    /// `IEND`
    End,
    /// Any other type whose first byte has bit 0x20 set, as a lower-case
    /// letter has; its content is not read.
    Ancillary,
}

/// One chunk record; the payload borrows from the decoded buffer.
#[derive(Clone, Copy, Debug)]
pub struct Chunk<'a> {
    pub kind: ChunkKind,
    pub data: &'a [u8],
}

/// A chunk with its payload as a sequence.
pub struct ChunkView {
    pub kind: ChunkKind,
    pub data: Seq<u8>,
}

impl<'a> View for Chunk<'a> {
    type V = ChunkView;

    open spec fn view(&self) -> ChunkView {
        ChunkView { kind: self.kind, data: self.data@ }
    }
}

/// The views of a sequence of chunks.
pub open spec fn chunk_views(chunks: Seq<Chunk>) -> Seq<ChunkView> {
    Seq::new(chunks.len(), |i: int| chunks[i]@)
}

/// The kind that a four-byte type code stands for; `None` for a type that
/// is neither one of the four known names nor marked ancillary by bit 0x20
/// of its first byte.
pub open spec fn kind_of(code: Seq<u8>) -> Option<ChunkKind>
    recommends
        code.len() == 4,
{
    if code =~= seq![0x49u8, 0x48u8, 0x44u8, 0x52u8] {
        Some(ChunkKind::Header)
    } else if code =~= seq![0x50u8, 0x4Cu8, 0x54u8, 0x45u8] {
        Some(ChunkKind::Palette)
    } else if code =~= seq![0x49u8, 0x44u8, 0x41u8, 0x54u8] {
        Some(ChunkKind::Data)
    } else if code =~= seq![0x49u8, 0x45u8, 0x4Eu8, 0x44u8] {
        Some(ChunkKind::End)
    } else if code[0] & 0x20 == 0x20 {
        Some(ChunkKind::Ancillary)
    } else {
        None
    }
}

/// The first chunk record of `s` and the number of bytes it occupies:
/// length, type, payload and the four trailer bytes, whose value is not
/// examined.
///
/// The fields are taken in that order, but the type is looked at only
/// once the payload is there: a record cut short before its trailer gives
/// `TruncatedInput`, an unknown critical type `InvalidChunkType`.
#[verifier::opaque]
pub open spec fn first_chunk(s: Seq<u8>) -> Result<(ChunkView, int), DecodeError> {
    if s.len() < 8 {
        Err(DecodeError::TruncatedInput)
    } else if s.len() < 8 + be_u32(s) {
        Err(DecodeError::TruncatedInput)
    } else if kind_of(s.subrange(4, 8)) is None {
        Err(DecodeError::InvalidChunkType)
    } else if s.len() < 12 + be_u32(s) {
        Err(DecodeError::TruncatedInput)
    } else {
        Ok(
            (
                ChunkView {
                    kind: kind_of(s.subrange(4, 8))->Some_0,
                    data: s.subrange(8, 8 + be_u32(s)),
                },
                12 + be_u32(s),
            ),
        )
    }
}

/// A chunk record takes up at least twelve bytes, all of them in `s`, and
/// as many more as its payload has.
pub proof fn lemma_first_chunk_size(s: Seq<u8>)
    ensures
        match first_chunk(s) {
            Ok((c, n)) => 12 <= n <= s.len() && n == 12 + c.data.len(),
            Err(_) => true,
        },
{
    reveal(first_chunk);
}

/// The chunks of `s`, read front to back and appended to `acc`.
pub open spec fn chunks_from(s: Seq<u8>, acc: Seq<ChunkView>) -> Result<Seq<ChunkView>, DecodeError>
    decreases s.len(),
{
    if s.len() == 0 {
        Ok(acc)
    } else {
        match first_chunk(s) {
            Err(e) => Err(e),
            Ok((c, n)) => {
                proof {
                    lemma_first_chunk_size(s);
                }
                chunks_from(s.skip(n), acc.push(c))
            },
        }
    }
}

/// The chunk sequence that the bytes `s` after the signature hold.
pub open spec fn spec_chunks(s: Seq<u8>) -> Result<Seq<ChunkView>, DecodeError> {
    chunks_from(s, Seq::empty())
}

/// The number of payload bytes in the first `n` chunks.
pub open spec fn payload_len(chunks: Seq<ChunkView>, n: int) -> int
    decreases n,
{
    if n <= 0 {
        0
    } else {
        payload_len(chunks, n - 1) + chunks[n - 1].data.len()
    }
}

/// More chunks hold no fewer payload bytes.
pub proof fn lemma_payload_len_monotonic(chunks: Seq<ChunkView>, m: int, n: int)
    requires
        m <= n,
    ensures
        0 <= payload_len(chunks, m) <= payload_len(chunks, n),
    decreases n,
{
    if n > 0 && m < n {
        lemma_payload_len_monotonic(chunks, m, n - 1);
    } else if n > 0 {
        lemma_payload_len_monotonic(chunks, m - 1, n - 1);
    }
}

/// The payload of the first `n` chunks depends on those chunks only.
pub proof fn lemma_payload_len_same_start(a: Seq<ChunkView>, b: Seq<ChunkView>, n: int)
    requires
        n <= a.len(),
        n <= b.len(),
        forall|i: int| 0 <= i < n ==> a[i] == b[i],
    ensures
        payload_len(a, n) == payload_len(b, n),
    decreases n,
{
    if n > 0 {
        lemma_payload_len_same_start(a, b, n - 1);
    }
}

/// The chunks read from `s` hold no more payload bytes than `s` has bytes.
pub proof fn lemma_chunks_payload_bounded(s: Seq<u8>, acc: Seq<ChunkView>)
    ensures
        match chunks_from(s, acc) {
            Ok(chunks) => payload_len(chunks, chunks.len() as int) <= payload_len(
                acc,
                acc.len() as int,
            ) + s.len(),
            Err(_) => true,
        },
    decreases s.len(),
{
    if s.len() > 0 {
        lemma_first_chunk_size(s);
        if let Ok((c, n)) = first_chunk(s) {
            let more = acc.push(c);
            lemma_payload_len_same_start(acc, more, acc.len() as int);
            lemma_chunks_payload_bounded(s.skip(n), more);
        }
    }
}

/// Tells the kind of a four-byte type code.
pub fn classify(code: &[u8]) -> (r: Option<ChunkKind>)
    requires
        code@.len() == 4,
    ensures
        r == kind_of(code@),
{
    let c0: u8 = code[0];
    let c1: u8 = code[1];
    let c2: u8 = code[2];
    let c3: u8 = code[3];
    if c0 == 0x49 && c1 == 0x48 && c2 == 0x44 && c3 == 0x52 {
        assert(code@ =~= seq![0x49u8, 0x48u8, 0x44u8, 0x52u8]);
        Some(ChunkKind::Header)
    } else if c0 == 0x50 && c1 == 0x4C && c2 == 0x54 && c3 == 0x45 {
        assert(code@ =~= seq![0x50u8, 0x4Cu8, 0x54u8, 0x45u8]);
        Some(ChunkKind::Palette)
    } else if c0 == 0x49 && c1 == 0x44 && c2 == 0x41 && c3 == 0x54 {
        assert(code@ =~= seq![0x49u8, 0x44u8, 0x41u8, 0x54u8]);
        Some(ChunkKind::Data)
    } else if c0 == 0x49 && c1 == 0x45 && c2 == 0x4E && c3 == 0x44 {
        assert(code@ =~= seq![0x49u8, 0x45u8, 0x4Eu8, 0x44u8]);
        Some(ChunkKind::End)
    } else if c0 & 0x20 == 0x20 {
        Some(ChunkKind::Ancillary)
    } else {
        None
    }
}

/// Reads every chunk of `file`, which is what follows the signature.
///
/// The result is the chunk sequence of `spec_chunks`, or the error of the
/// first chunk that cannot be read: `TruncatedInput` where a field is cut
/// short, `InvalidChunkType` for an unknown critical type.
pub fn read_chunks<'a>(file: &'a [u8]) -> (r: Result<Vec<Chunk<'a>>, DecodeError>)
    ensures
        match r {
            Ok(chunks) => spec_chunks(file@) == Ok::<Seq<ChunkView>, DecodeError>(
                chunk_views(chunks@),
            ),
            Err(e) => spec_chunks(file@) == Err::<Seq<ChunkView>, DecodeError>(e),
        },
{
    let mut rest: &[u8] = file;
    let mut chunks: Vec<Chunk<'a>> = Vec::new();
    assert(chunk_views(chunks@) =~= Seq::<ChunkView>::empty());
    while rest.len() != 0
        invariant
            chunks_from(rest@, chunk_views(chunks@)) == spec_chunks(file@),
        decreases rest@.len(),
    {
        let ghost s = rest@;
        let ghost acc = chunk_views(chunks@);
        proof {
            reveal(first_chunk);
        }
        let length: u32 = read_u32(&mut rest)?;
        let code: &[u8] = read_bytes(&mut rest, 4)?;
        assert(code@ =~= s.subrange(4, 8));
        let data: &[u8] = read_bytes(&mut rest, length as usize)?;
        assert(data@ =~= s.subrange(8, 8 + be_u32(s)));
        let kind: ChunkKind = match classify(code) {
            Some(k) => k,
            None => { return Err(DecodeError::InvalidChunkType); },
        };
        read_bytes(&mut rest, 4)?;
        assert(rest@ =~= s.skip(12 + be_u32(s)));
        chunks.push(Chunk { kind, data });
        assert(chunk_views(chunks@) =~= acc.push(ChunkView { kind, data: data@ }));
    }
    Ok(chunks)
}

} // verus!
