//! Cursors that hand out one line after another.
use vstd::prelude::*;

use crate::text::NEWLINE;

verus! {

/// `memchr::memchr` returns the index of the first occurrence of a byte, or `None` if it does not
/// occur.
pub assume_specification[ memchr::memchr ](needle: u8, haystack: &[u8]) -> (r: Option<usize>)
    ensures
        match r {
            Some(i) => i < haystack@.len() && haystack@[i as int] == needle && forall|j: int|
                0 <= j < i ==> haystack@[j] != needle,
            None => forall|j: int| 0 <= j < haystack@.len() ==> haystack@[j] != needle,
        },
;

/// Where the line that starts at `from` ends: just past its newline, or at the end of the data.
pub open spec fn line_end<A>(data: Seq<A>, newline: A, from: int) -> int
    decreases data.len() - from,
{
    if from >= data.len() {
        data.len() as int
    } else if data[from] == newline {
        from + 1
    } else {
        line_end(data, newline, from + 1)
    }
}

/// What the line holds without the newline at its end, if there is one.
pub open spec fn strip_newline<A>(span: Seq<A>, newline: A) -> Seq<A> {
    if ends_in_newline(span, newline) {
        span.drop_last()
    } else {
        span
    }
}

/// Whether the line ends in a newline.
pub open spec fn ends_in_newline<A>(span: Seq<A>, newline: A) -> bool {
    span.len() > 0 && span.last() == newline
}

/// The lines of the data from `from` on, each with its newline.
pub open spec fn lines_from<A>(data: Seq<A>, newline: A, from: int) -> Seq<Seq<A>>
    decreases data.len() - from,
    when 0 <= from
{
    if from >= data.len() {
        Seq::empty()
    } else {
        proof {
            lemma_line_end(data, newline, from);
        }
        let end = line_end(data, newline, from);
        seq![data.subrange(from, end)] + lines_from(data, newline, end)
    }
}

/// A line ends past its start and within the data, and has no newline but at its end.
pub proof fn lemma_line_end<A>(data: Seq<A>, newline: A, from: int)
    requires
        0 <= from,
    ensures
        from < data.len() ==> from < line_end(data, newline, from) <= data.len(),
        from >= data.len() ==> line_end(data, newline, from) == data.len(),
        forall|j: int| from <= j < line_end(data, newline, from) - 1 ==> data[j] != newline,
        from < data.len() && line_end(data, newline, from) < data.len() ==> data[line_end(
            data,
            newline,
            from,
        ) - 1] == newline,
    decreases data.len() - from,
{
    if from < data.len() && data[from] != newline {
        lemma_line_end(data, newline, from + 1);
    }
}

/// Law: the lines of the data, put together again, are the data. Nothing is lost, doubled or moved.
pub proof fn law_lines_make_up_the_data<A>(data: Seq<A>, newline: A, from: int)
    requires
        0 <= from <= data.len(),
    ensures
        lines_from(data, newline, from).flatten() == data.skip(from),
    decreases data.len() - from,
{
    lemma_line_end(data, newline, from);
    if from < data.len() {
        let end = line_end(data, newline, from);
        let first = data.subrange(from, end);
        let rest = lines_from(data, newline, end);
        law_lines_make_up_the_data(data, newline, end);
        assert(lines_from(data, newline, from).drop_first() =~= rest);
        assert(lines_from(data, newline, from).first() == first);
        assert(data.skip(from) =~= first + data.skip(end));
    } else {
        assert(data.skip(from) =~= Seq::<A>::empty());
    }
}

/// Law: every line but the last ends in a newline, no line is empty, and no line has a newline
/// anywhere but at its end.
pub proof fn law_lines_are_lines<A>(data: Seq<A>, newline: A, from: int, i: int)
    requires
        0 <= from,
        0 <= i < lines_from(data, newline, from).len(),
    ensures
        lines_from(data, newline, from)[i].len() > 0,
        i < lines_from(data, newline, from).len() - 1 ==> ends_in_newline(
            lines_from(data, newline, from)[i],
            newline,
        ),
        !strip_newline(lines_from(data, newline, from)[i], newline).contains(newline),
    decreases data.len() - from,
{
    lemma_line_end(data, newline, from);
    let end = line_end(data, newline, from);
    if i == 0 {
        let line = data.subrange(from, end);
        assert(lines_from(data, newline, from)[0] == line);
        assert(forall|j: int| 0 <= j < line.len() - 1 ==> line[j] == data[from + j]);
        if ends_in_newline(line, newline) {
            assert(strip_newline(line, newline) == line.drop_last());
        }
        if lines_from(data, newline, from).len() > 1 {
            assert(lines_from(data, newline, end).len() > 0);
            assert(end < data.len());
        }
    } else {
        assert(lines_from(data, newline, from)[i] == lines_from(data, newline, end)[i - 1]);
        law_lines_are_lines(data, newline, end, i - 1);
    }
}

/// One line of a mapped file.
pub struct NextMmapLine<'a> {
    /// The line without its newline.
    pub content: &'a [u8],
    /// The line with its newline, if it has one.
    pub full_span: &'a [u8],
    /// Whether no line follows.
    pub is_last_line: bool,
}

/// Cursor for iteration over the lines of a mapped file, without copying them.
pub struct MmapLineCursor<'a> {
    data: &'a [u8],
    pos: usize,
}

impl<'a> MmapLineCursor<'a> {
    /// The mapped bytes.
    pub closed spec fn data(&self) -> Seq<u8> {
        self.data@
    }

    /// How many bytes have been handed out.
    pub closed spec fn pos(&self) -> int {
        self.pos as int
    }

    /// The lines still to be handed out, each with its newline.
    pub open spec fn remaining(&self) -> Seq<Seq<u8>> {
        lines_from(self.data(), NEWLINE, self.pos())
    }

    /// A cursor at the start of the data.
    pub fn new(data: &'a [u8]) -> (r: Self)
        ensures
            r.data() == data@,
            r.pos() == 0,
    {
        MmapLineCursor { data, pos: 0 }
    }

    /// Return the next line, if available, or None.
    pub fn get_line(&mut self) -> (r: Option<NextMmapLine<'a>>)
        ensures
            final(self).data() == old(self).data(),
            match r {
                None => {
                    &&& old(self).pos() >= old(self).data().len()
                    &&& old(self).remaining().len() == 0
                    &&& final(self).pos() == old(self).pos()
                },
                Some(line) => {
                    &&& old(self).pos() < old(self).data().len()
                    &&& final(self).pos() == line_end(old(self).data(), NEWLINE, old(self).pos())
                    &&& line.full_span@ == old(self).data().subrange(
                        old(self).pos(),
                        final(self).pos(),
                    )
                    &&& old(self).remaining() == seq![line.full_span@] + final(self).remaining()
                    &&& line.content@ == strip_newline(line.full_span@, NEWLINE)
                    &&& line.is_last_line == (final(self).remaining().len() == 0)
                    &&& line.is_last_line == (final(self).pos() == final(self).data().len())
                },
            },
    {
        if self.pos >= self.data.len() {
            return None;
        }
        let data = self.data;
        let start: usize = self.pos;
        let tail = vstd::slice::slice_subrange(data, start, data.len());
        let mut end: usize = match memchr::memchr(NEWLINE, tail) {
            Some(pos) => pos + start,
            None => data.len(),
        };
        proof {
            assert forall|j: int| start <= j < end implies data@[j] != NEWLINE by {
                assert(tail@[j - start] == data@[j]);
            }
            lemma_line_end_at(data@, start as int, end as int);
        }
        if end < data.len() {
            end += 1;  // the newline belongs to the full span
        }
        self.pos = end;
        let full_span = vstd::slice::slice_subrange(data, start, end);
        let content = if full_span[full_span.len() - 1] == NEWLINE {
            vstd::slice::slice_subrange(full_span, 0, full_span.len() - 1)
        } else {
            full_span
        };
        let is_last_line = self.pos >= data.len();
        assert(full_span@.drop_last() =~= full_span@.subrange(0, full_span@.len() - 1));
        Some(NextMmapLine { content, full_span, is_last_line })
    }
}

/// The line ends past the first newline, or at the end of the data if there is none.
proof fn lemma_line_end_at(data: Seq<u8>, from: int, newline: int)
    requires
        0 <= from <= newline <= data.len(),
        forall|j: int| from <= j < newline ==> data[j] != NEWLINE,
        newline < data.len() ==> data[newline] == NEWLINE,
    ensures
        line_end(data, NEWLINE, from) == if newline < data.len() {
            newline + 1
        } else {
            newline
        },
    decreases newline - from,
{
    if from < newline {
        lemma_line_end_at(data, from + 1, newline);
    }
}

/// A line of a stream, as a value of specifications.
pub struct StreamLine {
    pub line: Seq<char>,
    pub has_newline: bool,
    pub is_last_line: bool,
}

impl StreamLine {
    /// The line that was read with its newline, if it has one.
    pub open spec fn of(raw: Seq<char>, is_last_line: bool) -> StreamLine {
        StreamLine {
            line: strip_newline(raw, '\n'),
            has_newline: ends_in_newline(raw, '\n'),
            is_last_line,
        }
    }

    /// The line with its newline, if it has one.
    pub open spec fn raw(self) -> Seq<char> {
        if self.has_newline {
            self.line.push('\n')
        } else {
            self.line
        }
    }
}

/// The lines of a stream that holds the text, of which each is read up to its newline.
pub open spec fn stream_lines(text: Seq<char>) -> Seq<StreamLine> {
    let raw = lines_from(text, '\n', 0);
    Seq::new(raw.len(), |i: int| StreamLine::of(raw[i], i == raw.len() - 1))
}

/// Law: the lines of a stream, each with its newline, make up its text; no line holds a newline; only
/// the last may lack one; and there is none just if there is no text.
pub proof fn law_stream_lines(text: Seq<char>)
    ensures
        stream_lines(text).map_values(|l: StreamLine| l.raw()).flatten() == text,
        stream_lines(text).len() == 0 <==> text.len() == 0,
        forall|i: int|
            #![trigger stream_lines(text)[i]]
            0 <= i < stream_lines(text).len() ==> {
                &&& !stream_lines(text)[i].line.contains('\n')
                &&& stream_lines(text)[i].is_last_line <==> i == stream_lines(text).len() - 1
                &&& !stream_lines(text)[i].is_last_line ==> stream_lines(text)[i].has_newline
            },
{
    let raw = lines_from(text, '\n', 0);
    assert forall|i: int| 0 <= i < raw.len() implies {
        &&& (#[trigger] stream_lines(text)[i]).raw() == raw[i]
        &&& !stream_lines(text)[i].line.contains('\n')
        &&& i < raw.len() - 1 ==> stream_lines(text)[i].has_newline
    } by {
        law_lines_are_lines(text, '\n', 0, i);
        assert(stream_lines(text)[i].raw() =~= raw[i]);
    }
    assert(stream_lines(text).map_values(|l: StreamLine| l.raw()) =~= raw);
    law_lines_make_up_the_data(text, '\n', 0);
    assert(text.skip(0) =~= text);
}

/// Cursor over the lines of a stream. It holds the raw text of the line that is being read.
///
/// For each line, the stream's reader appends to the buffer that `read_buffer` hands out, and
/// `get_line` then takes the line from it.
pub struct ReadLineCursor {
    buffer: String,
}

impl ReadLineCursor {
    /// The raw text of the line that is being read, with its newline.
    pub closed spec fn buffer(&self) -> Seq<char> {
        self.buffer@
    }

    /// A cursor with nothing read.
    pub fn new() -> (r: Self)
        ensures
            r.buffer() == Seq::<char>::empty(),
    {
        ReadLineCursor { buffer: String::new() }
    }

    /// The emptied buffer, to read the next line into.
    pub fn read_buffer(&mut self) -> (r: &mut String)
        ensures
            r@ == Seq::<char>::empty(),
            final(self).buffer() == final(r)@,
    {
        self.buffer.clear();
        &mut self.buffer
    }

    /// If a line has been read, return it, its \n termination, and whether it is the last line,
    /// otherwise return None. Nothing is left in the buffer.
    pub fn get_line(&mut self, is_last_line: bool) -> (r: Option<(String, bool, bool)>)
        ensures
            final(self).buffer() == Seq::<char>::empty(),
            match r {
                None => old(self).buffer().len() == 0,
                Some((line, has_newline, is_last)) => {
                    &&& old(self).buffer().len() > 0
                    &&& StreamLine::of(old(self).buffer(), is_last_line) == (StreamLine {
                        line: line@,
                        has_newline,
                        is_last_line: is_last,
                    })
                },
            },
    {
        let mut line = String::new();
        std::mem::swap(&mut line, &mut self.buffer);
        match line.pop() {
            None => None,
            Some(c) => {
                let has_newline = c == '\n';
                if !has_newline {
                    line.push(c);
                    assert(line@ =~= old(self).buffer());
                }
                Some((line, has_newline, is_last_line))
            },
        }
    }
}

} // verus!
