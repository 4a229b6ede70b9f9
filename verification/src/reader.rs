//! Unified reader over the lines of a mapped file or of a stream.
use vstd::prelude::*;
use vstd::utf8::*;

use crate::chunk::{IOChunk, IOChunkContent};
use crate::lines::{self, MmapLineCursor, NextMmapLine, ReadLineCursor};
use crate::text::NEWLINE;

verus! {

/// The name that stands for the standard input: a dash.
pub open spec fn standard_input() -> Seq<u8> {
    seq![0x2du8]
}

/// Unified reader that uses the mapped file when there is one, and otherwise the lines that are
/// read from a stream.
pub enum LineReader<'a> {
    MmapInput { cursor: MmapLineCursor<'a> },
    ReadInput(ReadLineCursor),
}

impl<'a> LineReader<'a> {
    /// Whether the path names the standard input.
    pub fn is_standard_input(path: &[u8]) -> (r: bool)
        ensures
            r == (path@ == standard_input()),
    {
        let r = path.len() == 1 && path[0] == 0x2d;
        assert(r ==> path@ =~= standard_input());
        r
    }

    /// A reader for the file of the given path, which may have been mapped. The standard input and
    /// a file that could not be mapped are read as streams.
    pub fn open(path: &[u8], mapped: Option<&'a [u8]>) -> (r: Self)
        ensures
            match r {
                LineReader::MmapInput { cursor } => {
                    &&& path@ != standard_input()
                    &&& mapped matches Some(data) && cursor.data() == data@
                    &&& cursor.pos() == 0
                },
                LineReader::ReadInput(cursor) => {
                    &&& path@ == standard_input() || mapped is None
                    &&& cursor.buffer() == Seq::<char>::empty()
                },
            },
    {
        if LineReader::is_standard_input(path) {
            return LineReader::open_stream();
        }
        match mapped {
            Some(data) => LineReader::MmapInput { cursor: MmapLineCursor::new(data) },
            None => LineReader::open_stream(),
        }
    }

    /// A reader for a stream.
    pub fn open_stream() -> (r: Self)
        ensures
            r matches LineReader::ReadInput(cursor) && cursor.buffer() == Seq::<char>::empty(),
    {
        LineReader::ReadInput(ReadLineCursor::new())
    }

    /// The emptied buffer to read the next line of a stream into, or None for a mapped file.
    pub fn read_buffer(&mut self) -> (r: Option<&mut String>)
        ensures
            match r {
                None => *old(self) is MmapInput && *final(self) == *old(self),
                Some(buffer) => {
                    &&& *old(self) is ReadInput
                    &&& buffer@ == Seq::<char>::empty()
                    &&& *final(self) matches LineReader::ReadInput(cursor) && cursor.buffer()
                        == final(buffer)@
                },
            },
    {
        match self {
            LineReader::MmapInput { .. } => None,
            LineReader::ReadInput(cursor) => Some(cursor.read_buffer()),
        }
    }

    /// Return the next line, if available, and whether it is the last one, or None at end of file.
    /// A line of a stream has been read into the buffer before, and the caller knows whether it is
    /// the last.
    pub fn get_line(&mut self, is_last_line: bool) -> (r: Option<(IOChunk<'a>, bool)>)
        ensures
            r matches Some((chunk, _)) ==> chunk.wf() && !chunk.recorded(),
            match (*old(self), *final(self)) {
                (LineReader::MmapInput { cursor: before }, LineReader::MmapInput { cursor: after }) => {
                    &&& after.data() == before.data()
                    &&& match r {
                        None => before.remaining().len() == 0 && after.pos() == before.pos(),
                        Some((chunk, last)) => {
                            &&& after.pos() == lines::line_end(before.data(), NEWLINE, before.pos())
                            &&& chunk.spec_content() matches IOChunkContent::MmapInput {
                                content,
                                full_span,
                            } && before.remaining() == seq![full_span@] + after.remaining()
                                && content@ == lines::strip_newline(full_span@, NEWLINE)
                            &&& last == (after.remaining().len() == 0)
                        },
                    }
                },
                (LineReader::ReadInput(before), LineReader::ReadInput(after)) => {
                    &&& after.buffer() == Seq::<char>::empty()
                    &&& match r {
                        None => before.buffer().len() == 0,
                        Some((chunk, last)) => {
                            &&& before.buffer().len() > 0
                            &&& chunk.spec_content() matches IOChunkContent::Owned {
                                content,
                                has_newline,
                            } && content@ == lines::strip_newline(before.buffer(), '\n')
                                && has_newline == lines::ends_in_newline(before.buffer(), '\n')
                            &&& last == is_last_line
                        },
                    }
                },
                _ => false,
            },
    {
        match self {
            LineReader::MmapInput { cursor } => match cursor.get_line() {
                Some(NextMmapLine { content, full_span, is_last_line }) => Some(
                    (
                        IOChunk::from_content(IOChunkContent::MmapInput { content, full_span }),
                        is_last_line,
                    ),
                ),
                None => None,
            },
            LineReader::ReadInput(cursor) => match cursor.get_line(is_last_line) {
                Some((line, has_newline, is_last_line)) => Some(
                    (
                        IOChunk::from_content(IOChunkContent::new_owned(line, has_newline)),
                        is_last_line,
                    ),
                ),
                None => None,
            },
        }
    }
}

/// Encoding one more character appends its encoding.
proof fn lemma_encode_push(text: Seq<char>, c: char)
    ensures
        encode_utf8(text.push(c)) == encode_utf8(text) + encode_scalar(c as u32),
    decreases text.len(),
{
    if text.len() == 0 {
        assert(text.push(c).drop_first() =~= Seq::empty());
        assert(encode_utf8(text.push(c).drop_first()) =~= Seq::empty());
    } else {
        assert(text.push(c).drop_first() =~= text.drop_first().push(c));
        lemma_encode_push(text.drop_first(), c);
    }
}

/// Encoding two texts, one behind the other.
proof fn lemma_encode_append(a: Seq<char>, b: Seq<char>)
    ensures
        encode_utf8(a + b) == encode_utf8(a) + encode_utf8(b),
    decreases b.len(),
{
    if b.len() == 0 {
        assert(a + b =~= a);
    } else {
        assert(a + b =~= (a + b.drop_last()).push(b.last()));
        assert(b =~= b.drop_last().push(b.last()));
        lemma_encode_append(a, b.drop_last());
        lemma_encode_push(a + b.drop_last(), b.last());
        lemma_encode_push(b.drop_last(), b.last());
    }
}

/// The encoding of a character holds the newline byte just if it is the newline, which is one byte.
proof fn lemma_newline_encoding(c: char)
    ensures
        encode_scalar(c as u32).len() > 0,
        c == '\n' ==> encode_scalar(c as u32) == seq![NEWLINE],
        c != '\n' ==> !encode_scalar(c as u32).contains(NEWLINE),
{
    let scalar = c as u32;
    char_is_scalar(c);
    assert((0x80u8 | (scalar & 0x3f) as u8) >= 0x80) by (bit_vector);
    assert((0x80u8 | ((scalar >> 6) & 0x3f) as u8) >= 0x80) by (bit_vector);
    assert((0x80u8 | ((scalar >> 12) & 0x3f) as u8) >= 0x80) by (bit_vector);
    assert((0xc0u8 | ((scalar >> 6) & 0x1f) as u8) >= 0x80) by (bit_vector);
    assert((0xe0u8 | ((scalar >> 12) & 0x0f) as u8) >= 0x80) by (bit_vector);
    assert((0xf0u8 | ((scalar >> 18) & 0x7) as u8) >= 0x80) by (bit_vector);
    assert(scalar <= 0x7f ==> (scalar & 0x7f) as u8 == scalar) by (bit_vector);
}

/// The encoding of a line without its newline is the encoding of the line, without its newline.
proof fn lemma_line_encoding(line: Seq<char>)
    ensures
        encode_utf8(lines::strip_newline(line, '\n')) == lines::strip_newline(
            encode_utf8(line),
            NEWLINE,
        ),
        lines::ends_in_newline(encode_utf8(line), NEWLINE) == lines::ends_in_newline(line, '\n'),
{
    if line.len() > 0 {
        let c = line.last();
        let last = encode_scalar(c as u32);
        assert(line.drop_last().push(c) =~= line);
        lemma_encode_push(line.drop_last(), c);
        lemma_newline_encoding(c);
        assert(encode_utf8(line).last() == last.last());
        assert(last.contains(last.last()));
        if c == '\n' {
            assert(encode_utf8(line).drop_last() =~= encode_utf8(line.drop_last()));
        }
    }
}

/// Where the encoding of the first `n` characters ends.
spec fn encoded_len(text: Seq<char>, n: int) -> int {
    encode_utf8(text.take(n)).len() as int
}

/// A piece of the text is encoded as that piece of the encoding.
proof fn lemma_encoded_piece(text: Seq<char>, a: int, b: int)
    requires
        0 <= a <= b <= text.len(),
    ensures
        0 <= encoded_len(text, a) <= encoded_len(text, b) <= encode_utf8(text).len(),
        encode_utf8(text).subrange(encoded_len(text, a), encoded_len(text, b)) == encode_utf8(
            text.subrange(a, b),
        ),
{
    let piece = text.subrange(a, b);
    assert(text.take(b) =~= text.take(a) + piece);
    assert(text =~= text.take(b) + text.skip(b));
    lemma_encode_append(text.take(a), piece);
    lemma_encode_append(text.take(b), text.skip(b));
    assert(encode_utf8(text).subrange(encoded_len(text, a), encoded_len(text, b))
        =~= encode_utf8(piece));
}

/// A line goes on behind what holds no newline.
proof fn lemma_line_goes_on(data: Seq<u8>, from: int, to: int)
    requires
        0 <= from <= to <= data.len(),
        forall|j: int| from <= j < to ==> data[j] != NEWLINE,
    ensures
        lines::line_end(data, NEWLINE, from) == lines::line_end(data, NEWLINE, to),
    decreases to - from,
{
    if from < to {
        lemma_line_goes_on(data, from + 1, to);
    }
}

/// A line of the text ends where the encoded one ends.
proof fn lemma_encoded_line_end(text: Seq<char>, n: int)
    requires
        0 <= n <= text.len(),
    ensures
        lines::line_end(encode_utf8(text), NEWLINE, encoded_len(text, n)) == encoded_len(
            text,
            lines::line_end(text, '\n', n),
        ),
    decreases text.len() - n,
{
    let data = encode_utf8(text);
    assert(text.take(text.len() as int) =~= text);
    if n < text.len() {
        let c = text[n];
        let scalar = encode_scalar(c as u32);
        let from = encoded_len(text, n);
        let to = encoded_len(text, n + 1);
        lemma_encoded_piece(text, n, n + 1);
        assert(text.subrange(n, n + 1) =~= Seq::<char>::empty().push(c));
        lemma_encode_push(Seq::empty(), c);
        assert(encode_utf8(Seq::<char>::empty()) + scalar =~= scalar);
        assert(data.subrange(from, to) == scalar);
        assert(forall|j: int| from <= j < to ==> data[j] == scalar[j - from]);
        lemma_newline_encoding(c);
        if c != '\n' {
            assert forall|j: int| from <= j < to implies data[j] != NEWLINE by {
                assert(scalar.contains(scalar[j - from]));
            }
            lemma_line_goes_on(data, from, to);
            lemma_encoded_line_end(text, n + 1);
        } else {
            assert(data[from] == scalar[0]);
        }
    }
}

/// The lines of the text from `n` on are encoded as the lines of the encoding.
proof fn lemma_encoded_lines(text: Seq<char>, n: int)
    requires
        0 <= n <= text.len(),
    ensures
        lines::lines_from(encode_utf8(text), NEWLINE, encoded_len(text, n)) == lines::lines_from(
            text,
            '\n',
            n,
        ).map_values(|line: Seq<char>| encode_utf8(line)),
    decreases text.len() - n,
{
    let data = encode_utf8(text);
    assert(text.take(text.len() as int) =~= text);
    let encoded = lines::lines_from(data, NEWLINE, encoded_len(text, n));
    let mapped = lines::lines_from(text, '\n', n).map_values(|line: Seq<char>| encode_utf8(line));
    if n < text.len() {
        let end = lines::line_end(text, '\n', n);
        lines::lemma_line_end(text, '\n', n);
        lemma_encoded_line_end(text, n);
        lemma_encoded_piece(text, n, end);
        lemma_encoded_piece(text, n, n + 1);
        lemma_newline_encoding(text[n]);
        assert(text.subrange(n, n + 1) =~= Seq::<char>::empty().push(text[n]));
        lemma_encode_push(Seq::empty(), text[n]);
        lemma_encoded_piece(text, n + 1, text.len() as int);
        lemma_encoded_lines(text, end);
    }
    assert(encoded =~= mapped);
}

/// Law: the way of reading is not visible in the lines: a file that holds the encoding of the text
/// has as many lines as a stream of the text, each with the bytes and the newline of the stream's.
pub proof fn law_stream_and_mapped_lines_agree(text: Seq<char>)
    ensures
        lines::lines_from(encode_utf8(text), NEWLINE, 0).len() == lines::stream_lines(text).len(),
        forall|k: int|
            #![trigger lines::stream_lines(text)[k]]
            0 <= k < lines::stream_lines(text).len() ==> {
                let mapped = lines::lines_from(encode_utf8(text), NEWLINE, 0)[k];
                let stream = lines::stream_lines(text)[k];
                &&& mapped == encode_utf8(stream.raw())
                &&& lines::strip_newline(mapped, NEWLINE) == encode_utf8(stream.line)
                &&& lines::ends_in_newline(mapped, NEWLINE) == stream.has_newline
            },
{
    lemma_encoded_lines(text, 0);
    assert(text.take(0) =~= Seq::empty());
    assert forall|k: int|
        #![trigger lines::stream_lines(text)[k]]
        0 <= k < lines::stream_lines(text).len() implies {
        let mapped = lines::lines_from(encode_utf8(text), NEWLINE, 0)[k];
        let stream = lines::stream_lines(text)[k];
        &&& mapped == encode_utf8(stream.raw())
        &&& lines::strip_newline(mapped, NEWLINE) == encode_utf8(stream.line)
        &&& lines::ends_in_newline(mapped, NEWLINE) == stream.has_newline
    } by {
        let raw = lines::lines_from(text, '\n', 0)[k];
        lemma_line_encoding(raw);
        assert(lines::stream_lines(text)[k].raw() =~= raw);
    }
}

} // verus!
