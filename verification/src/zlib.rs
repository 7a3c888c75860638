//! The compression boundary: loose objects and pack entry bodies are
//! zlib streams, consumed and produced by an outside primitive.

use std::io::Read;
use std::io::Write;
use vstd::prelude::*;

verus! {

/// What a byte sequence decompresses to: `Some(content)` exactly when
/// the whole sequence is a single complete zlib stream for `content`.
/// Decompression is a function of the input bytes alone.
pub uninterp spec fn inflate_of(data: Seq<u8>) -> Option<Seq<u8>>;

/// Relies on flate2's write::ZlibEncoder: the output is one complete
/// zlib stream that decompresses to the input. Encoding into a memory
/// buffer cannot fail.
#[verifier::external_body]
pub fn zlib_compress(data: &Vec<u8>) -> (r: Vec<u8>)
    ensures
        inflate_of(r@) == Some(data@),
{
    let mut e = flate2::write::ZlibEncoder::new(Vec::new(), flate2::Compression::default());
    e.write_all(data.as_slice()).expect("writing to a memory buffer");
    e.finish().expect("finishing a memory buffer")
}

/// The exclusive end of the complete zlib stream starting at `start`,
/// if any prefix of the data from there forms one. A zlib stream is
/// self-delimiting, so at most one prefix can, which makes this the
/// stream's one end wherever a decoder succeeds.
pub open spec fn zlib_stream_end(s: Seq<u8>, start: int) -> Option<int> {
    if exists|e: int| start <= e <= s.len() && inflate_of(s.subrange(start, e)) is Some {
        Some(choose|e: int| start <= e <= s.len() && inflate_of(s.subrange(start, e)) is Some)
    } else {
        None
    }
}

/// A successful decompression determines the stream end exactly.
pub proof fn lemma_stream_end_unique(s: Seq<u8>, start: int, e0: int)
    requires
        0 <= start <= e0 <= s.len(),
        inflate_of(s.subrange(start, e0)) is Some,
        forall|e: int|
            start <= e <= s.len() && e != e0 ==> inflate_of(s.subrange(start, e)) is None,
    ensures
        zlib_stream_end(s, start) == Some(e0),
{
    let picked = choose|e: int| start <= e <= s.len() && inflate_of(s.subrange(start, e)) is Some;
    assert(start <= picked <= s.len() && inflate_of(s.subrange(start, picked)) is Some);
}

/// A failed decompression means no prefix forms a stream at all.
pub proof fn lemma_stream_end_none(s: Seq<u8>, start: int)
    requires
        0 <= start <= s.len(),
        forall|e: int| start <= e <= s.len() ==> inflate_of(s.subrange(start, e)) is None,
    ensures
        zlib_stream_end(s, start) is None,
{
}

/// Relies on flate2's read::ZlibDecoder and its total_in count: reading
/// to the end consumes exactly one complete zlib stream when the input
/// begins with one, and fails when no prefix is a complete stream. A
/// zlib stream is self-delimiting, so exactly one prefix of the input
/// can form a complete stream.
#[verifier::external_body]
pub fn zlib_decompress_from(data: &Vec<u8>, start: usize) -> (r: Option<(Vec<u8>, usize)>)
    requires
        start <= data@.len(),
    ensures
        match r {
            Some(p) => {
                &&& start + p.1 <= data@.len()
                &&& inflate_of(data@.subrange(start as int, start + p.1)) == Some(p.0@)
                &&& forall|e: int|
                    start <= e <= data@.len() && e != start + p.1 ==> inflate_of(
                        data@.subrange(start as int, e),
                    ) is None
            },
            None => forall|e: int|
                start <= e <= data@.len() ==> inflate_of(data@.subrange(start as int, e)) is None,
        },
{
    let mut z = flate2::read::ZlibDecoder::new(&data[start..]);
    let mut out: Vec<u8> = Vec::new();
    match z.read_to_end(&mut out) {
        Ok(_) => {
            let used = z.total_in() as usize;
            Some((out, used))
        },
        Err(_) => None,
    }
}

} // verus!
