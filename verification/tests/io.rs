//! Lines that are read, chunks, and output.
use std::io::BufRead;

use sed::chunk::{IOChunk, IOChunkContent};
use sed::error::SedError;
use sed::lines::{MmapLineCursor, ReadLineCursor};
use sed::output::{Output, OutputBuffer, Span, MAX_PENDING_WRITE, MIN_DIRECT_WRITE};
use sed::reader::LineReader;

/// Produce a 4k-byte Vec of `'.'`s ending in `'\n'`.
fn make_dot_line_4k() -> Vec<u8> {
    let mut buf = vec![b'.'; 4095];
    buf.push(b'\n');
    buf
}

/// A writer with its buffer, and the data that is mapped into memory. The first span that gets here
/// starts where the data does.
struct Writer<'d> {
    data: &'d [u8],
    base: Option<usize>,
    buffered: Vec<u8>,
    file: Vec<u8>,
    writes_issued: usize,
}

impl<'d> Writer<'d> {
    fn new(data: &'d [u8]) -> Self {
        Writer { data, base: None, buffered: Vec::new(), file: Vec::new(), writes_issued: 0 }
    }

    fn mapped(&mut self, span: Span) -> &'d [u8] {
        let base = *self.base.get_or_insert(span.start);
        &self.data[span.start - base..span.start - base + span.len]
    }

    fn perform(&mut self, plan: Vec<Output<'_>>) {
        for step in plan {
            match step {
                Output::Bytes(bytes) => self.buffered.extend_from_slice(bytes),
                Output::Buffered(span, _) => {
                    let bytes = self.mapped(span);
                    self.buffered.extend_from_slice(bytes);
                }
                Output::Flush => self.file.append(&mut self.buffered),
                Output::Direct(span, _) => {
                    assert!(self.buffered.is_empty());
                    let bytes = self.mapped(span);
                    self.file.extend_from_slice(bytes);
                    self.writes_issued += 1;
                }
            }
        }
    }
}

/// The next line: for a stream, after reading it.
fn next_line<'a>(reader: &mut LineReader<'a>, input: &mut &[u8]) -> Option<(IOChunk<'a>, bool)> {
    if let Some(buffer) = reader.read_buffer() {
        input.read_line(buffer).unwrap();
    }
    reader.get_line(input.is_empty())
}

/// Copy mapped data line by line, and check what gets written.
fn copy_mapped(data: &[u8], lines: usize, writes_issued: usize) {
    let mut reader = LineReader::open(b"input", Some(data));
    let mut writer = Writer::new(data);
    let mut out = OutputBuffer::new();
    let mut nline = 0;
    while let Some((chunk, last_line)) = reader.get_line(false) {
        let plan = out.write_chunk(&chunk);
        writer.perform(plan);
        nline += 1;
        assert_eq!(last_line, nline == lines);
    }
    assert_eq!(nline, lines);

    let plan = out.flush();
    writer.perform(plan);
    assert_eq!(writer.writes_issued, writes_issued);
    assert!(writer.buffered.is_empty());
    assert_eq!(writer.file.as_slice(), data);
}

#[test]
fn test_owned_line_output() {
    let mut writer = Writer::new(b"");
    let mut out = OutputBuffer::new();
    writer.perform(out.write_str("foo\n"));
    writer.perform(out.write_str("bar\n"));
    writer.perform(out.flush());
    assert_eq!(writer.writes_issued, 0);
    assert_eq!(writer.file.as_slice(), b"foo\nbar\n");
}

#[test]
fn test_mmap_line_output_single() {
    copy_mapped(b"line one\nline two\n", 2, 0);
}

#[test]
fn test_mixed_output_order_preserved() {
    let data = b"zero\none\n";
    let mut reader = LineReader::open(b"input", Some(data));
    let mut writer = Writer::new(data);
    let mut out = OutputBuffer::new();

    // Read the first mapped line ("zero\n") and write it
    let (chunk, _last_line) = reader.get_line(false).unwrap();
    writer.perform(out.write_chunk(&chunk));

    // Write an owned line ("middle\n")
    writer.perform(out.write_str("middle\n"));

    // Read the second mapped line ("one\n") and write it
    let (chunk, _last_line) = reader.get_line(false).unwrap();
    writer.perform(out.write_chunk(&chunk));

    writer.perform(out.flush());

    // Since all writes are small (<4K), no write goes past the buffer
    assert_eq!(writer.writes_issued, 0);
    assert_eq!(writer.file.as_slice(), b"zero\nmiddle\none\n");
}

#[test]
fn test_large_file_zero_copy() {
    let mut data = b"first line\nsecond line\n".to_vec();
    data.extend_from_slice(&make_dot_line_4k());
    copy_mapped(&data, 3, 1);
}

#[test]
fn test_large_file_zero_copy_unterminated() {
    let mut data = b"first line\nsecond line\n".to_vec();
    data.extend_from_slice(&make_dot_line_4k());
    data.extend_from_slice(b"last line (unterminated)");
    copy_mapped(&data, 4, 1);
}

#[test]
fn test_small_file_unterminated() {
    copy_mapped(b"first line\nsecond line\nlast line (unterminated)", 3, 0);
}

#[test]
fn test_small_file_unterminated_stream() {
    let data: &[u8] = b"first line\nsecond line\nlast line (unterminated)";
    let mut input = data;
    let mut reader = LineReader::open_stream();
    let mut writer = Writer::new(data);
    let mut out = OutputBuffer::new();
    let mut nline = 0;
    while let Some((chunk, _last_line)) = next_line(&mut reader, &mut input) {
        writer.perform(out.write_chunk(&chunk));
        nline += 1;
    }
    assert_eq!(nline, 3);

    writer.perform(out.flush());
    assert_eq!(writer.writes_issued, 0);
    assert_eq!(writer.file.as_slice(), data);
}

#[test]
fn test_large_file_zero_copy_with_flush() {
    let mut data = b"first line\nsecond line\n".to_vec();
    // Write 64k + 16k to ensure one flush when writing
    for _i in 0..20 {
        data.extend_from_slice(&make_dot_line_4k());
    }
    copy_mapped(&data, 22, 2);
}

#[test]
fn test_stream_read() {
    let mut input: &[u8] = b"first line\nsecond line\nlast line\n";
    let mut reader = LineReader::open_stream();

    let (chunk, last_line) = next_line(&mut reader, &mut input).unwrap();
    match chunk.content() {
        IOChunkContent::Owned { content, has_newline } => {
            assert_eq!(content, "first line");
            assert_eq!(content.len(), 10);
            assert!(*has_newline);
            assert!(!chunk.utf8_verified());
            assert!(!last_line);
        }
        _ => panic!("Expected IOChunkContent::Owned"),
    }

    let (chunk, last_line) = next_line(&mut reader, &mut input).unwrap();
    match chunk.content() {
        IOChunkContent::Owned { content, has_newline } => {
            assert_eq!(content, "second line");
            assert!(*has_newline);
            assert!(!last_line);
        }
        _ => panic!("Expected IOChunkContent::Owned"),
    }

    let (chunk, last_line) = next_line(&mut reader, &mut input).unwrap();
    assert_eq!(chunk.as_str().unwrap(), "last line");
    assert!(last_line);

    assert!(next_line(&mut reader, &mut input).is_none());
}

#[test]
fn test_mmap_read() {
    let data = b"first line\nsecond line\nlast line\n";
    let mut reader = LineReader::open(b"input", Some(data));

    let (chunk, last_line) = reader.get_line(false).unwrap();
    match chunk.content() {
        IOChunkContent::MmapInput { content, full_span } => {
            assert_eq!(*content, b"first line");
            assert_eq!(content.len(), 10);
            assert_eq!(*full_span, b"first line\n");
            assert!(!chunk.utf8_verified());
            assert!(!last_line);
        }
        _ => panic!("Expected IOChunkContent::MapInput"),
    }

    let (chunk, last_line) = reader.get_line(false).unwrap();
    match chunk.content() {
        IOChunkContent::MmapInput { content, full_span } => {
            assert_eq!(*content, b"second line");
            assert_eq!(*full_span, b"second line\n");
            assert!(!chunk.utf8_verified());
            assert!(!last_line);
        }
        _ => panic!("Expected IOChunkContent::MapInput"),
    }

    let (chunk, last_line) = reader.get_line(false).unwrap();
    assert_eq!(chunk.as_bytes(), b"last line");
    assert_eq!(chunk.as_str().unwrap(), "last line");
    assert!(chunk.utf8_verified());
    assert!(last_line);
    // Cached version
    assert_eq!(chunk.as_str().unwrap(), "last line");

    assert!(reader.get_line(false).is_none());
}

// is_newline_terminated, is_empty
#[test]
fn test_owned_newline_terminated_non_empty() {
    let chunk = IOChunk::from_content(IOChunkContent::new_owned("line".to_string(), true));
    assert!(chunk.is_newline_terminated());
    assert!(!chunk.is_empty());
}

#[test]
fn test_owned_newline_terminated_empty() {
    let chunk = IOChunk::from_content(IOChunkContent::new_owned("".to_string(), true));
    assert!(chunk.is_newline_terminated());
    assert!(chunk.is_empty());
}

#[test]
fn test_owned_not_newline_terminated() {
    let chunk = IOChunk::from_content(IOChunkContent::new_owned("line".to_string(), false));
    assert!(!chunk.is_newline_terminated());
}

#[test]
fn test_mmap_newline_terminated() {
    let content = b"line";
    let full_span = b"line\n";
    let chunk = IOChunk::from_content(IOChunkContent::MmapInput { content, full_span });
    assert!(chunk.is_newline_terminated());
}

#[test]
fn test_mmap_not_newline_terminated() {
    let content = b"line";
    let full_span = b"line";
    let chunk = IOChunk::from_content(IOChunkContent::MmapInput { content, full_span });
    assert!(!chunk.is_newline_terminated());
}

#[test]
fn test_mmap_empty() {
    let content = b"";
    let full_span = b"";
    let chunk = IOChunk::from_content(IOChunkContent::MmapInput { content, full_span });
    assert!(!chunk.is_newline_terminated());
}

// ensure_owned()
#[test]
fn test_ensure_owned_on_owned() {
    let mut chunk =
        IOChunk::from_content(IOChunkContent::new_owned("already owned".to_string(), true));

    let result = chunk.ensure_owned();
    assert!(result.is_ok());

    // Content must be unchanged
    match chunk.content() {
        IOChunkContent::Owned { content, has_newline } => {
            assert_eq!(content, "already owned");
            assert!(*has_newline);
        }
        _ => panic!("Expected Owned variant"),
    }
}

#[test]
fn test_ensure_owned_on_mmap_valid_utf8() {
    let content = b"mmap string";
    let full_span = b"mmap string\n";
    let mut chunk = IOChunk::from_content(IOChunkContent::MmapInput { content, full_span });

    let result = chunk.ensure_owned();
    assert!(result.is_ok());

    match chunk.content() {
        IOChunkContent::Owned { content, has_newline } => {
            assert_eq!(content, "mmap string");
            assert!(*has_newline);
        }
        _ => panic!("Expected Owned variant after ensure_owned"),
    }
}

#[test]
fn test_ensure_owned_on_mmap_valid_utf8_no_newline() {
    let content = b"no newline";
    let full_span = b"no newline";
    let mut chunk = IOChunk::from_content(IOChunkContent::MmapInput { content, full_span });

    let result = chunk.ensure_owned();
    assert!(result.is_ok());

    match chunk.content() {
        IOChunkContent::Owned { content, has_newline } => {
            assert_eq!(content, "no newline");
            assert!(!*has_newline);
        }
        _ => panic!("Expected Owned variant after ensure_owned"),
    }
}

#[test]
fn test_ensure_owned_on_mmap_invalid_utf8() {
    let content = b"bad\xFFutf8";
    let full_span = b"bad\xFFutf8\n";
    let mut chunk = IOChunk::from_content(IOChunkContent::MmapInput { content, full_span });

    let result = chunk.ensure_owned();
    assert!(result.is_err());
    let err_msg = result.unwrap_err().message();
    assert!(err_msg.contains("invalid utf-8"), "Unexpected error message: {}", err_msg);
}

// fields_mut
#[test]
fn test_fields_mut_on_owned() {
    let mut chunk = IOChunk::from_content(IOChunkContent::new_owned("hello".to_string(), false));

    let (s, _) = chunk.fields_mut().unwrap();
    s.push_str(" world");

    assert_eq!(chunk.as_str().unwrap(), "hello world");
}

#[test]
fn test_fields_mut_on_mmap_input_valid_utf8() {
    let content = b"foo";
    let full_span = b"foo\n";
    let mut chunk = IOChunk::from_content(IOChunkContent::MmapInput { content, full_span });

    {
        let (s, _) = chunk.fields_mut().unwrap();
        s.push_str("bar");
    }

    assert_eq!(chunk.as_str().unwrap(), "foobar");
}

#[test]
fn test_fields_mut_on_utf8_multibyte() {
    let content = "Ζωντανά!".as_bytes();
    let full_span = "Ζωντανά!\n".as_bytes();
    let mut chunk = IOChunk::from_content(IOChunkContent::MmapInput { content, full_span });

    let (s, _) = chunk.fields_mut().unwrap();
    s.push_str(" Δεδομένα");

    assert_eq!(chunk.as_str().unwrap(), "Ζωντανά! Δεδομένα");
}

#[test]
fn test_fields_mut_invalid_utf8() {
    let content = b"abc\xFF"; // invalid UTF-8
    let full_span = b"abc\xFF\n";
    let mut chunk = IOChunk::from_content(IOChunkContent::MmapInput { content, full_span });

    let result = chunk.fields_mut();
    assert!(result.is_err());
    assert!(result.unwrap_err().message().contains("invalid utf-8"));
}

// What is not text stays so
#[test]
fn invalid_utf8_is_refused_each_time() {
    let content = b"abc\xFF";
    let full_span = b"abc\xFF\n";
    let chunk = IOChunk::from_content(IOChunkContent::MmapInput { content, full_span });
    for _i in 0..2 {
        match chunk.as_str() {
            Err(SedError::Simple { code, message }) => {
                assert_eq!(code, 2);
                assert_eq!(message, std::str::from_utf8(content).unwrap_err().to_string());
            }
            _ => panic!("Expected an error"),
        }
        assert!(!chunk.utf8_verified());
    }
    assert_eq!(chunk.as_bytes(), content);
}

#[test]
fn chunks_can_be_replaced() {
    let mut chunk = IOChunk::from_str("line");
    assert_eq!(chunk.as_bytes(), b"line");
    assert!(chunk.is_newline_terminated());
    assert!(!chunk.utf8_verified());
    chunk.set_to_string("other".to_string(), false);
    assert_eq!(chunk.as_str().unwrap(), "other");
    assert!(!chunk.is_newline_terminated());
    assert!(chunk.utf8_verified());
    chunk.clear();
    assert!(chunk.is_empty());
    assert!(!chunk.is_newline_terminated());
    assert_eq!(chunk.as_str().unwrap(), "");

    let mut chunk =
        IOChunk::from_content(IOChunkContent::MmapInput { content: b"a\xFF", full_span: b"a\xFF\n" });
    chunk.clear();
    assert_eq!(chunk.as_str().unwrap(), "");
    assert!(matches!(chunk.content(), IOChunkContent::Owned { has_newline: false, .. }));
}

#[test]
fn content_length_is_in_bytes() {
    assert_eq!(IOChunkContent::new_owned("Ζω".to_string(), true).len(), 4);
    assert_eq!(IOChunkContent::MmapInput { content: b"abc", full_span: b"abc\n" }.len(), 3);
}

#[test]
fn ensuring_ownership_keeps_the_line() {
    for (content, full_span) in [(&b"a b"[..], &b"a b\n"[..]), (b"", b"\n"), (b"", b""), (b"x", b"x")] {
        let mut chunk = IOChunk::from_content(IOChunkContent::MmapInput { content, full_span });
        let terminated = chunk.is_newline_terminated();
        for _i in 0..2 {
            assert!(chunk.ensure_owned().is_ok());
            assert_eq!(chunk.as_bytes(), content);
            assert_eq!(chunk.is_newline_terminated(), terminated);
        }
    }
}

#[test]
fn fields_of_a_line_can_be_changed() {
    let mut chunk = IOChunk::from_content(IOChunkContent::MmapInput { content: b"a", full_span: b"a" });
    let (content, has_newline) = chunk.fields_mut().unwrap();
    assert_eq!(content, "a");
    assert!(!*has_newline);
    content.push('b');
    *has_newline = true;
    assert_eq!(chunk.as_bytes(), b"ab");
    assert!(chunk.is_newline_terminated());
}

// Lines
#[test]
fn lines_make_up_the_data() {
    for data in [&b""[..], b"\n", b"\n\n", b"a", b"a\n", b"a\nb", b"\na\n\nb\n", b"a\xFF\n\x00b"] {
        let mut cursor = MmapLineCursor::new(data);
        let mut all: Vec<u8> = Vec::new();
        let mut ended = data.is_empty();
        while let Some(line) = cursor.get_line() {
            assert!(!ended);
            ended = line.is_last_line;
            all.extend_from_slice(line.full_span);
            if line.full_span.ends_with(b"\n") {
                assert_eq!(line.content, &line.full_span[..line.full_span.len() - 1]);
            } else {
                assert_eq!(line.content, line.full_span);
                assert!(line.is_last_line);
            }
            assert!(!line.content.contains(&b'\n'));
        }
        assert!(ended);
        assert_eq!(all.as_slice(), data);
        assert!(cursor.get_line().is_none());
    }
}

#[test]
fn stream_lines_lose_their_newline() {
    let mut cursor = ReadLineCursor::new();
    assert_eq!(cursor.get_line(true), None);
    for (raw, line, has_newline) in
        [("a\n", "a", true), ("a", "a", false), ("\n", "", true), ("é", "é", false), ("a\n\n", "a\n", true)]
    {
        cursor.read_buffer().push_str(raw);
        assert_eq!(cursor.get_line(false), Some((line.to_string(), has_newline, false)));
        assert_eq!(cursor.get_line(false), None);
    }
    cursor.read_buffer().push_str("left over");
    assert_eq!(cursor.read_buffer(), "");
}

#[test]
fn stream_and_mapped_lines_agree() {
    for data in ["", "\n", "α\n\nb\nlast", "a\r\nb\n", "\u{a0a}\n\u{10a0a}"] {
        let mut input = data.as_bytes();
        let mut stream = LineReader::open_stream();
        let mut mapped = LineReader::open(b"-x", Some(data.as_bytes()));
        let mut all = String::new();
        while let Some((chunk, last_line)) = mapped.get_line(false) {
            let (other, other_last) = next_line(&mut stream, &mut input).unwrap();
            assert_eq!(chunk.as_bytes(), other.as_bytes());
            assert_eq!(chunk.is_newline_terminated(), other.is_newline_terminated());
            assert_eq!(last_line, other_last);
            assert!(!other.as_str().unwrap().contains('\n'));
            assert!(last_line || other.is_newline_terminated());
            all.push_str(other.as_str().unwrap());
            if other.is_newline_terminated() {
                all.push('\n');
            }
        }
        assert!(next_line(&mut stream, &mut input).is_none());
        assert_eq!(all, data);
    }
}

#[test]
fn a_dash_is_the_standard_input() {
    assert!(LineReader::is_standard_input(b"-"));
    assert!(!LineReader::is_standard_input(b""));
    assert!(!LineReader::is_standard_input(b"--"));
    assert!(!LineReader::is_standard_input(b"a"));
    assert!(matches!(LineReader::open(b"-", Some(b"data")), LineReader::ReadInput(_)));
    assert!(matches!(LineReader::open(b"file", None), LineReader::ReadInput(_)));
    assert!(matches!(LineReader::open(b"file", Some(b"data")), LineReader::MmapInput { .. }));
    assert!(LineReader::open(b"file", Some(b"data")).read_buffer().is_none());
}

// Output
#[test]
fn adjacent_spans_are_joined() {
    let data = [b'x'; 16];
    let mut out = OutputBuffer::new();
    assert!(out.write_span(100, &data[..10]).is_empty());
    assert!(out.write_span(110, &data[..5]).is_empty());
    // Not contiguous
    let plan = out.write_span(116, &data[..1]);
    assert!(matches!(plan[..], [Output::Buffered(Span { start: 100, len: 15 }, _)]));
    let plan = out.flush();
    assert!(matches!(
        plan[..],
        [Output::Buffered(Span { start: 116, len: 1 }, _), Output::Flush]
    ));
    assert!(out.flush_mmap().is_empty());
}

#[test]
fn thresholds_are_exact() {
    assert_eq!(MIN_DIRECT_WRITE, 4 * 1024);
    assert_eq!(MAX_PENDING_WRITE, 64 * 1024);

    let data = vec![b'x'; 65536];
    let mut out = OutputBuffer::new();
    out.write_span(0, &data[..4095]);
    assert!(matches!(out.flush_mmap()[..], [Output::Buffered(Span { start: 0, len: 4095 }, _)]));
    out.write_span(0, &data[..4096]);
    assert!(matches!(
        out.flush_mmap()[..],
        [Output::Flush, Output::Direct(Span { start: 0, len: 4096 }, _)]
    ));

    out.write_span(0, &data[..65535]);
    assert!(out.write_span(65535, &data[..1]).is_empty());
    assert!(matches!(
        out.write_span(65536, &data[..1])[..],
        [Output::Flush, Output::Direct(Span { start: 0, len: 65536 }, _)]
    ));
}

#[test]
fn bytes_must_be_text() {
    let mut out = OutputBuffer::new();
    out.write_span(7, b"ab");
    assert_eq!(
        out.write(b"\xFF").err().unwrap(),
        std::str::from_utf8(&[0xFF]).unwrap_err().to_string()
    );
    let (plan, n) = out.write("né".as_bytes()).ok().unwrap();
    assert_eq!(n, 3);
    assert!(matches!(
        plan[..],
        [Output::Buffered(Span { start: 7, len: 2 }, _), Output::Bytes(b"n\xc3\xa9")]
    ));
    let (plan, n) = out.write(b"").ok().unwrap();
    assert_eq!(n, 0);
    assert!(matches!(plan[..], [Output::Bytes(b"")]));
}

#[test]
fn unreadable_files_are_copied_as_empty() {
    let mut out = OutputBuffer::new();
    out.write_span(7, b"ab");
    assert!(matches!(
        out.copy_file(Some(b"file\xFF"))[..],
        [Output::Buffered(Span { start: 7, len: 2 }, _), Output::Bytes(b"file\xFF")]
    ));
    out.write_span(7, b"ab");
    assert!(matches!(
        out.copy_file(None)[..],
        [Output::Buffered(Span { start: 7, len: 2 }, _)]
    ));
    assert!(out.copy_file(None).is_empty());
}

#[test]
fn all_calls_get_to_the_writer_in_order() {
    let data = b"one\ntwo\nthree";
    let mut reader = LineReader::open(b"input", Some(data));
    let mut writer = Writer::new(data);
    let mut out = OutputBuffer::new();
    let (chunk, _last_line) = reader.get_line(false).unwrap();
    writer.perform(out.write_chunk(&chunk));
    let (chunk, _last_line) = reader.get_line(false).unwrap();
    writer.perform(out.write_chunk(&chunk));
    writer.perform(out.copy_file(Some(b"[file]")));
    writer.perform(out.write_str("[str]"));
    let (chunk, _last_line) = reader.get_line(false).unwrap();
    writer.perform(out.write_chunk(&chunk));
    writer.perform(out.write(b"[write]").ok().unwrap().0);
    writer.perform(out.write_chunk(&IOChunk::from_str("owned")));
    writer.perform(out.flush());
    assert_eq!(writer.file.as_slice(), b"one\ntwo\n[file][str]three[write]owned\n");
    assert!(writer.buffered.is_empty());
}

#[test]
fn owned_chunks_get_their_newline() {
    let mut out = OutputBuffer::new();
    let chunk = IOChunk::from_str("a");
    assert!(matches!(out.write_chunk(&chunk)[..], [Output::Bytes(b"a"), Output::Bytes(b"\n")]));
    let chunk = IOChunk::from_content(IOChunkContent::new_owned("b".to_string(), false));
    assert!(matches!(out.write_chunk(&chunk)[..], [Output::Bytes(b"b")]));
}

#[test]
fn failed_output_is_given_up() {
    let mut out = OutputBuffer::new();
    out.write_span(7, b"ab");
    out.write_failed();
    assert!(matches!(out.flush()[..], [Output::Flush]));
}

#[test]
fn adjacent_chunks_are_one_write() {
    let data = b"one\ntwo\nthree\n";
    let mut reader = LineReader::open(b"input", Some(data));
    let mut out = OutputBuffer::new();
    while let Some((chunk, _last_line)) = reader.get_line(false) {
        assert!(out.write_chunk(&chunk).is_empty());
    }
    assert!(matches!(out.flush_mmap()[..], [Output::Buffered(Span { len: 14, .. }, _)]));
}
