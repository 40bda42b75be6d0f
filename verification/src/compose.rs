//! How decoding composes: chunks are framed by their own length, so what
//! follows a chunk has no part in how it is decoded.

use crate::error::ParseError;
use crate::file::{
    followed_by, is_mtrk, spec_chunk, spec_chunks, spec_frame, spec_header, spec_parse_midi,
    ChunkView, MidiView, HEADER_LEN,
};
use crate::wire::spec_be_u32;
use vstd::prelude::*;

verus! {

/// A whole chunk frame is read the same way whatever follows it.
pub proof fn lemma_chunk_prefix(s: Seq<u8>, t: Seq<u8>)
    requires
        spec_chunk(s) is Ok,
    ensures
        spec_frame(s + t) == spec_frame(s),
        spec_chunk(s + t) == spec_chunk(s),
{
    let len = spec_be_u32(s.skip(4));
    assert(forall|j: int| 0 <= j < 8 ==> (s + t)[j] == s[j]);
    assert(spec_be_u32((s + t).skip(4)) == len);
    assert((s + t).subrange(8, 8 + len) =~= s.subrange(8, 8 + len));
}

/// The chunks of two buffers, one after the other, are the chunks of the
/// first followed by the chunks of the second; an error in the second is then
/// the error of the whole.
pub proof fn lemma_chunks_concat(a: Seq<u8>, b: Seq<u8>)
    requires
        spec_chunks(a) is Ok,
    ensures
        spec_chunks(a + b) == followed_by(spec_chunks(a)->Ok_0, spec_chunks(b)),
    decreases a.len(),
{
    let tail = spec_chunks(b);
    if a.len() == 0 {
        assert(a + b =~= b);
        if tail is Ok {
            assert(Seq::<ChunkView>::empty() + tail->Ok_0 =~= tail->Ok_0);
        }
    } else {
        let (c, used) = spec_chunk(a)->Ok_0;
        let first = crate::file::kept(c);
        let rest = spec_chunks(a.skip(used))->Ok_0;
        lemma_chunk_prefix(a, b);
        lemma_chunks_concat(a.skip(used), b);
        assert((a + b).skip(used) =~= a.skip(used) + b);
        if b.len() == 0 {
            assert(a + b =~= a);
        }
        if tail is Ok {
            assert(first + (rest + tail->Ok_0) =~= (first + rest) + tail->Ok_0);
        }
    }
}

/// A chunk with another tag than `MTrk` adds nothing: the chunks of a buffer
/// that starts with one are the chunks of what follows it.
pub proof fn lemma_unknown_chunk_skipped(s: Seq<u8>)
    requires
        spec_frame(s) is Ok,
        !is_mtrk(s),
    ensures
        spec_chunks(s) == spec_chunks(s.skip(spec_frame(s)->Ok_0.1)),
{
    let tail = spec_chunks(s.skip(spec_frame(s)->Ok_0.1));
    if tail is Ok {
        assert(Seq::<ChunkView>::empty() + tail->Ok_0 =~= tail->Ok_0);
    }
}

/// A chunk that declares more bytes than the buffer has left is an
/// unexpected end of input, whatever its tag.
pub proof fn lemma_truncated_chunk(s: Seq<u8>)
    requires
        s.len() >= 8,
        spec_be_u32(s.skip(4)) > s.len() - 8,
    ensures
        spec_chunk(s) == Err::<(Option<ChunkView>, int), ParseError>(ParseError::UnexpectedEof),
        spec_chunks(s) == Err::<Seq<ChunkView>, ParseError>(ParseError::UnexpectedEof),
{
}

/// Chunks appended to a well-formed file are decoded after its own, in
/// order, under the same header; an error in them is the error of the whole.
pub proof fn lemma_parse_appended(file: Seq<u8>, more: Seq<u8>)
    requires
        spec_parse_midi(file) is Ok,
    ensures
        spec_parse_midi(file + more) == match spec_chunks(more) {
            Ok(chunks) => Ok::<MidiView, ParseError>(
                MidiView {
                    header: spec_parse_midi(file)->Ok_0.header,
                    chunks: spec_parse_midi(file)->Ok_0.chunks + chunks,
                },
            ),
            Err(e) => Err::<MidiView, ParseError>(e),
        },
{
    let n = HEADER_LEN as int;
    assert(forall|j: int| 0 <= j < n ==> (file + more)[j] == file[j]);
    assert(spec_header(file + more) == spec_header(file));
    assert((file + more).skip(n) =~= file.skip(n) + more);
    lemma_chunks_concat(file.skip(n), more);
}

/// A well-formed file followed by a chunk that declares more bytes than are
/// left is an unexpected end of input.
pub proof fn lemma_parse_truncated(file: Seq<u8>, last: Seq<u8>)
    requires
        spec_parse_midi(file) is Ok,
        last.len() >= 8,
        spec_be_u32(last.skip(4)) > last.len() - 8,
    ensures
        spec_parse_midi(file + last) == Err::<MidiView, ParseError>(ParseError::UnexpectedEof),
{
    lemma_truncated_chunk(last);
    lemma_parse_appended(file, last);
}

} // verus!
