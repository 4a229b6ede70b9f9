//! What the operations are for, stated over what they are given and what they give.
use vstd::prelude::*;
use vstd::utf8::*;

use crate::byte_engine;
use crate::captures::{self, MatchView};
use crate::chunk::{self, IOChunk, IOChunkContent};
use crate::error::{ErrorView, ScriptLocation, SedError};
use crate::fancy_engine;
use crate::lines::{self, MmapLineCursor, StreamLine};
use crate::literal::{self, AnchoredMatch, LiteralView};
use crate::matcher::{self, EngineView, RegexEngine, RegexView};
use crate::output::{self, Output, OutputView, Pending, Sink, Span};
use crate::pattern;
use crate::reader;
use crate::text;

verus! {

// Lines

/// Law: a line ends right behind the first newline, or at the end of the data if there is none.
pub proof fn law_line_ends_at_the_newline<A>(data: Seq<A>, newline: A, from: int)
    requires
        0 <= from < data.len(),
    ensures
        ({
            let end = lines::line_end(data, newline, from);
            &&& from < end <= data.len()
            &&& forall|j: int| from <= j < end - 1 ==> data[j] != newline
            &&& data[end - 1] == newline || end == data.len()
        }),
{
    lines::lemma_line_end(data, newline, from);
}

/// Law: a newline at the end of a line is taken off, once, and nothing else is.
pub proof fn law_only_a_newline_is_taken_off<A>(line: Seq<A>, newline: A, other: A)
    requires
        other != newline,
    ensures
        lines::ends_in_newline(line.push(newline), newline),
        lines::strip_newline(line.push(newline), newline) == line,
        !lines::ends_in_newline(line.push(other), newline),
        lines::strip_newline(line.push(other), newline) == line.push(other),
        !lines::ends_in_newline(Seq::<A>::empty(), newline),
        lines::strip_newline(Seq::<A>::empty(), newline) == Seq::<A>::empty(),
{
    assert(line.push(newline).drop_last() =~= line);
}

/// Law: data is split into lines behind each newline and nowhere else.
pub proof fn law_data_is_split_behind_newlines<A>(data: Seq<A>, newline: A)
    ensures
        ({
            let all = lines::lines_from(data, newline, 0);
            &&& all.flatten() == data
            &&& forall|i: int| 0 <= i < all.len() ==> (#[trigger] all[i]).len() > 0
            &&& forall|i: int| 0 <= i < all.len() - 1 ==> (#[trigger] all[i]).last() == newline
            &&& forall|i: int, j: int|
                0 <= i < all.len() && 0 <= j < all[i].len() - 1 ==> #[trigger] all[i][j] != newline
        }),
{
    let all = lines::lines_from(data, newline, 0);
    lines::law_lines_make_up_the_data(data, newline, 0);
    assert(data.skip(0) =~= data);
    assert forall|i: int| 0 <= i < all.len() implies {
        &&& (#[trigger] all[i]).len() > 0
        &&& i < all.len() - 1 ==> all[i].last() == newline
    } by {
        lines::law_lines_are_lines(data, newline, 0, i);
    }
    assert forall|i: int, j: int|
        0 <= i < all.len() && 0 <= j < all[i].len() - 1 implies #[trigger] all[i][j] != newline by {
        lines::law_lines_are_lines(data, newline, 0, i);
        let stripped = lines::strip_newline(all[i], newline);
        assert(stripped[j] == all[i][j]);
        assert(stripped.contains(stripped[j]));
    }
}

/// Law: the lines that a cursor still has make up the data behind it, and it has none just if it is
/// at the end.
pub proof fn law_remaining_lines_make_up_the_rest(cursor: MmapLineCursor<'_>)
    requires
        0 <= cursor.pos() <= cursor.data().len(),
    ensures
        cursor.remaining().flatten() == cursor.data().skip(cursor.pos()),
        cursor.remaining().len() == 0 <==> cursor.pos() == cursor.data().len(),
{
    lines::law_lines_make_up_the_data(cursor.data(), text::NEWLINE, cursor.pos());
}

/// Law: what is read of a stream is the line and its newline; the newline alone is kept apart.
pub proof fn law_stream_line_is_what_was_read(line: Seq<char>, other: char, last: bool)
    requires
        other != '\n',
    ensures
        StreamLine::of(line.push('\n'), last) == (StreamLine {
            line,
            has_newline: true,
            is_last_line: last,
        }),
        StreamLine::of(line.push(other), last) == (StreamLine {
            line: line.push(other),
            has_newline: false,
            is_last_line: last,
        }),
        StreamLine::of(Seq::empty(), last) == (StreamLine {
            line: Seq::empty(),
            has_newline: false,
            is_last_line: last,
        }),
{
    law_only_a_newline_is_taken_off(line, '\n', other);
}

/// Law: the lines of a stream, each with a newline if it had one, make up its text; none holds a
/// newline, each but the last had one, and only the last is the last.
pub proof fn law_stream_is_split_behind_newlines(text: Seq<char>)
    ensures
        ({
            let all = lines::stream_lines(text);
            &&& all.map_values(
                |l: StreamLine|
                    if l.has_newline {
                        l.line.push('\n')
                    } else {
                        l.line
                    },
            ).flatten() == text
            &&& forall|i: int|
                0 <= i < all.len() ==> {
                    &&& !(#[trigger] all[i]).line.contains('\n')
                    &&& all[i].is_last_line <==> i == all.len() - 1
                    &&& i < all.len() - 1 ==> all[i].has_newline
                    &&& all[i].line.len() > 0 || all[i].has_newline
                }
        }),
{
    let all = lines::stream_lines(text);
    let raw = lines::lines_from(text, '\n', 0);
    law_data_is_split_behind_newlines(text, '\n');
    lines::law_stream_lines(text);
    let whole = all.map_values(
        |l: StreamLine|
            if l.has_newline {
                l.line.push('\n')
            } else {
                l.line
            },
    );
    assert forall|i: int| 0 <= i < all.len() implies {
        &&& #[trigger] whole[i] == raw[i]
        &&& all[i].line.len() > 0 || all[i].has_newline
    } by {
        assert(raw[i].drop_last().push(raw[i].last()) =~= raw[i]);
    }
    assert(whole =~= raw);
}

/// Law: a file that holds the encoding of a text is read as the same lines, mapped or as a stream.
pub proof fn law_way_of_reading_is_not_visible(text: Seq<char>, k: int)
    ensures
        ({
            let mapped = lines::lines_from(encode_utf8(text), text::NEWLINE, 0);
            let stream = lines::stream_lines(text);
            &&& mapped.len() == stream.len()
            &&& 0 <= k < stream.len() ==> mapped[k] == encode_utf8(stream[k].line)
                + if stream[k].has_newline {
                seq![0x0au8]
            } else {
                Seq::empty()
            }
        }),
{
    reader::law_stream_and_mapped_lines_agree(text);
    let mapped = lines::lines_from(encode_utf8(text), text::NEWLINE, 0);
    let stream = lines::stream_lines(text);
    if 0 <= k < stream.len() {
        assert(stream[k] == stream[k]);
        let line = encode_utf8(stream[k].line);
        if stream[k].has_newline {
            assert(mapped[k].drop_last().push(mapped[k].last()) =~= mapped[k]);
            assert(line + seq![0x0au8] =~= line.push(0x0au8));
        } else {
            assert(line + Seq::<u8>::empty() =~= line);
        }
    }
}

/// Law: the standard input is named by the text of a dash.
pub proof fn law_a_dash_names_the_standard_input()
    ensures
        reader::standard_input() == encode_utf8(seq!['-']),
{
    is_ascii_chars_encode_utf8(seq!['-']);
    assert(reader::standard_input() =~= encode_utf8(seq!['-']));
}

// Chunks and errors

/// Law: a chunk holds what it was made of, and ends a line if its newline was given or stands at the
/// end of its span.
pub proof fn law_chunk_holds_its_content(
    content: &[u8],
    full_span: &[u8],
    text: String,
    has_newline: bool,
)
    ensures
        (IOChunkContent::Owned { content: text, has_newline }).bytes() == encode_utf8(text@),
        (IOChunkContent::Owned { content: text, has_newline }).terminated() == has_newline,
        (IOChunkContent::MmapInput { content, full_span }).bytes() == content@,
        (IOChunkContent::MmapInput { content, full_span }).terminated() <==> exists|line: Seq<u8>|
            full_span@ == #[trigger] line.push(0x0au8),
{
    if full_span@.len() > 0 && full_span@.last() == 0x0a {
        assert(full_span@ =~= full_span@.drop_last().push(0x0au8));
    }
}

/// Law: a chunk has the bytes and the end of the content that it holds.
pub proof fn law_chunk_is_its_content(chunk: IOChunk<'_>)
    ensures
        match chunk.spec_content() {
            IOChunkContent::MmapInput { content, full_span } => chunk.bytes() == content@
                && chunk.terminated() == (full_span@.len() > 0 && full_span@.last() == 0x0a),
            IOChunkContent::Owned { content, has_newline } => chunk.bytes() == encode_utf8(content@)
                && chunk.terminated() == has_newline,
        },
{
}

/// Law: an error tells what went wrong, where, and with which code.
pub proof fn law_errors_tell_all(
    bytes: Seq<u8>,
    code: i32,
    location: ScriptLocation,
    message: String,
)
    ensures
        chunk::utf8_error(bytes) == (ErrorView::Simple {
            code: 2,
            message: text::utf8_error_text(bytes),
        }),
        (SedError::Simple { code, message })@ == (ErrorView::Simple { code, message: message@ }),
        (SedError::Simple { code, message })@.text() == message@,
        (SedError::Runtime { location, message })@ == (ErrorView::Runtime {
            location: location@,
            message: message@,
        }),
        (SedError::Runtime { location, message })@.text() == message@,
        (SedError::Pattern { message })@ == (ErrorView::Pattern { message: message@ }),
        (SedError::Pattern { message })@.text() == message@,
        location@.input_name == location.input_name@,
        location@.line_number == location.line_number,
{
}

// Literal matching

/// Law: a needle occurs where it has been put, and where it occurs it can be cut out.
pub proof fn law_needle_occurs_where_it_was_put(
    before: Seq<u8>,
    needle: Seq<u8>,
    after: Seq<u8>,
    haystack: Seq<u8>,
    i: int,
)
    ensures
        literal::occurs_at(before + needle + after, needle, before.len() as int),
        literal::occurs_at(haystack, needle, i) ==> 0 <= i && i + needle.len() <= haystack.len()
            && haystack == haystack.take(i) + needle + haystack.skip(i + needle.len()),
{
    let all = before + needle + after;
    assert(all.subrange(before.len() as int, (before.len() + needle.len()) as int) =~= needle);
    if literal::occurs_at(haystack, needle, i) {
        assert(haystack =~= haystack.take(i) + haystack.subrange(i, i + needle.len())
            + haystack.skip(i + needle.len()));
    }
}

/// Law: a needle is found if it is there: anywhere, no later than where it was put; or where its
/// anchors ask for it, even if nothing else is there.
pub proof fn law_needle_is_found_if_it_is_there(
    needle: Seq<u8>,
    before: Seq<u8>,
    after: Seq<u8>,
)
    ensures
        (LiteralView { needle, match_type: AnchoredMatch::Free }).find(before + needle + after)
            matches Some(i) && 0 <= i <= before.len(),
        (LiteralView { needle, match_type: AnchoredMatch::Begin }).find(needle + after) == Some(
            0int,
        ),
        (LiteralView { needle, match_type: AnchoredMatch::End }).find(before + needle) == Some(
            before.len() as int,
        ),
        (LiteralView { needle, match_type: AnchoredMatch::Both }).find(needle) == Some(0int),
{
    let all = before + needle + after;
    law_needle_occurs_where_it_was_put(before, needle, after, all, 0);
    literal::lemma_first_occurrence(all, needle, 0);
    assert((needle + after).subrange(0, needle.len() as int) =~= needle);
    assert((before + needle).subrange(before.len() as int, (before.len() + needle.len()) as int)
        =~= needle);
}

/// Law: where something is found, the needle stands, at the place that the anchors ask for.
pub proof fn law_only_the_needle_is_found(matcher: LiteralView, haystack: Seq<u8>)
    ensures
        matcher.find(haystack) matches Some(i) ==> {
            &&& 0 <= i && i + matcher.needle.len() <= haystack.len()
            &&& haystack.subrange(i, i + matcher.needle.len()) == matcher.needle
            &&& matcher.match_type is Begin || matcher.match_type is Both ==> i == 0
            &&& matcher.match_type is End || matcher.match_type is Both ==> i + matcher.needle.len()
                == haystack.len()
        },
{
    if matcher.find(haystack) is Some {
        literal::law_found_is_the_needle(matcher, haystack);
    }
}

/// Law: a match of a literal has the place of the needle and its text.
pub proof fn law_literal_match_is_the_needle(
    matcher: LiteralView,
    i: int,
    found: (usize, usize, &str),
)
    requires
        matcher.is_found(i, found),
    ensures
        found.0 == i,
        found.1 == i + matcher.needle.len(),
        encode_utf8(found.2@) == matcher.needle,
{
}

/// Law: no occurrence of a needle without anchors is missed: each one starts a match or lies in one.
pub proof fn law_no_match_is_missed(needle: Seq<u8>, before: Seq<u8>, after: Seq<u8>)
    ensures
        ({
            let all = (LiteralView { needle, match_type: AnchoredMatch::Free }).find_all(
                before + needle + after,
            );
            exists|k: int|
                0 <= k < all.len() && (#[trigger] all[k] == before.len() || all[k] < before.len()
                    < all[k] + needle.len())
        }),
{
    let haystack = before + needle + after;
    law_needle_occurs_where_it_was_put(before, needle, after, haystack, 0);
    literal::law_no_occurrence_is_missed(haystack, needle, 0, before.len() as int);
    let all = literal::occurrences(haystack, needle, 0);
    let k = choose|k: int|
        0 <= k < all.len() && (#[trigger] all[k] == before.len() || all[k] < before.len() < all[k]
            + needle.len());
    let found = (LiteralView { needle, match_type: AnchoredMatch::Free }).find_all(haystack);
    assert(found == all);
    assert(found[k] == all[k]);
}

/// Law: all matches are the needle, one behind the other without overlap; the first is the one that
/// is found; and with an anchor there is one at most.
pub proof fn law_matches_follow_each_other(matcher: LiteralView, haystack: Seq<u8>, k: int)
    ensures
        ({
            let all = matcher.find_all(haystack);
            let len = matcher.needle.len();
            &&& 0 <= k < all.len() ==> 0 <= all[k] && all[k] + len <= haystack.len()
                && haystack.subrange(all[k], all[k] + len) == matcher.needle
            &&& 0 < k < all.len() ==> all[k - 1] + len <= all[k]
            &&& match matcher.find(haystack) {
                Some(i) => all.len() > 0 && all[0] == i,
                None => all.len() == 0,
            }
            &&& !(matcher.match_type is Free) ==> all.len() <= 1
        }),
{
    let all = matcher.find_all(haystack);
    literal::law_first_of_all_is_found(matcher, haystack);
    if 0 <= k < all.len() {
        literal::law_all_found_are_the_needle(matcher, haystack, k);
    }
}

/// Law: `^` at the beginning and `$` at the end of a needle are anchors, each of them once, and all
/// else belongs to the needle.
pub proof fn law_anchors_are_taken_off(needle: Seq<u8>)
    ensures
        LiteralView::anchored(seq![0x5eu8] + needle + seq![0x24u8]) == (LiteralView {
            needle,
            match_type: AnchoredMatch::Both,
        }),
        needle.len() == 0 || needle.last() != 0x24 ==> LiteralView::anchored(
            seq![0x5eu8] + needle,
        ) == (LiteralView { needle, match_type: AnchoredMatch::Begin }),
        needle.len() == 0 || needle[0] != 0x5e ==> LiteralView::anchored(needle + seq![0x24u8])
            == (LiteralView { needle, match_type: AnchoredMatch::End }),
        needle.len() > 0 && needle[0] != 0x5e && needle.last() != 0x24 ==> LiteralView::anchored(
            needle,
        ) == (LiteralView { needle, match_type: AnchoredMatch::Free }),
{
    let both = seq![0x5eu8] + needle + seq![0x24u8];
    assert(both.subrange(1, both.len() - 1) =~= needle);
    let begin = seq![0x5eu8] + needle;
    assert(begin.subrange(1, begin.len() as int) =~= needle);
    let end = needle + seq![0x24u8];
    assert(end.subrange(0, end.len() - 1) =~= needle);
    if needle.len() > 0 {
        assert(begin.last() == needle.last());
        assert(end[0] == needle[0]);
    }
}

// Patterns

/// Whether what stands behind `before` is not escaped.
pub open spec fn escapes_nothing(before: Seq<char>) -> bool {
    let n = before.len() as int;
    ||| n == 0
    ||| n == 1 && before[0] != '\\'
    ||| n > 1 && before[n - 1] != '\\' && before[n - 2] != '\\'
    ||| n > 1 && before[n - 1] != '\n' && before[n - 2] == '\\'
}

/// Law: without a backslash nothing is escaped; neither is what stands behind a backslash and what
/// that consumes; but what stands right behind a lone backslash is.
pub proof fn law_only_a_backslash_escapes(before: Seq<char>, c: char)
    ensures
        !before.contains('\\') ==> escapes_nothing(before),
        c != '\n' ==> escapes_nothing(before + seq!['\\', c]),
        c != '\\' ==> !escapes_nothing(before + seq![c, '\\']),
        !escapes_nothing(seq!['\\']),
        !pattern::unescaped_at(seq!['\\', c], 1),
        c != '\\' ==> !pattern::unescaped_at(before + seq![c, '\\', c], before.len() as int + 2),
{
    if !before.contains('\\') {
        let n = before.len() as int;
        if n > 0 {
            assert(before.contains(before[n - 1]));
        }
        if n > 1 {
            assert(before.contains(before[n - 2]));
        }
    }
    let p = before + seq![c, '\\', c];
    let n = before.len() as int;
    assert(p[n] == c && p[n + 1] == '\\');
}

/// Law: wherever `.`, `[^`, `(?i`, a class letter or a digit behind a backslash stands without being
/// escaped, whatever else there is, the fancy engine is chosen.
pub proof fn law_fancy_items_choose_the_fancy_engine(
    before: Seq<char>,
    letter: char,
    digit: char,
    after: Seq<char>,
)
    requires
        escapes_nothing(before),
        "WwDdSsBbPp"@.contains(letter),
        "0123456789"@.contains(digit),
    ensures
        ({
            let p = before + seq!['.'] + after;
            pattern::needs_fancy(p) && EngineView::of(p) == EngineView::Fancy(p)
        }),
        ({
            let p = before + seq!['[', '^'] + after;
            pattern::needs_fancy(p) && EngineView::of(p) == EngineView::Fancy(p)
        }),
        ({
            let p = before + seq!['(', '?', 'i'] + after;
            pattern::needs_fancy(p) && EngineView::of(p) == EngineView::Fancy(p)
        }),
        ({
            let p = before + seq!['\\', letter] + after;
            pattern::needs_fancy(p) && EngineView::of(p) == EngineView::Fancy(p)
        }),
        ({
            let p = before + seq!['\\', digit] + after;
            pattern::needs_fancy(p) && EngineView::of(p) == EngineView::Fancy(p)
        }),
{
    reveal_strlit("WwDdSsBbPp");
    reveal_strlit("0123456789");
    let n = before.len() as int;
    lemma_unescaped_behind(before, seq!['.'] + after);
    lemma_unescaped_behind(before, seq!['[', '^'] + after);
    lemma_unescaped_behind(before, seq!['(', '?', 'i'] + after);
    lemma_unescaped_behind(before, seq!['\\', letter] + after);
    lemma_unescaped_behind(before, seq!['\\', digit] + after);
    let p = before + seq!['.'] + after;
    assert(p =~= before + (seq!['.'] + after));
    assert(pattern::unescaped_at(p, n) && pattern::fancy_item_at(p, n));
    let p = before + seq!['[', '^'] + after;
    assert(p =~= before + (seq!['[', '^'] + after));
    assert(pattern::unescaped_at(p, n) && pattern::fancy_item_at(p, n));
    let p = before + seq!['(', '?', 'i'] + after;
    assert(p =~= before + (seq!['(', '?', 'i'] + after));
    assert(pattern::unescaped_at(p, n) && pattern::fancy_item_at(p, n));
    let p = before + seq!['\\', letter] + after;
    assert(p =~= before + (seq!['\\', letter] + after));
    assert(pattern::unescaped_at(p, n) && pattern::fancy_item_at(p, n));
    let p = before + seq!['\\', digit] + after;
    assert(p =~= before + (seq!['\\', digit] + after));
    assert(pattern::unescaped_at(p, n) && pattern::fancy_item_at(p, n));
}

/// What stands behind something that escapes nothing is not escaped.
proof fn lemma_unescaped_behind(before: Seq<char>, after: Seq<char>)
    requires
        escapes_nothing(before),
    ensures
        pattern::unescaped_at(before + after, before.len() as int),
{
}

/// Law: a character that is not ASCII, or NUL, chooses the fancy engine, wherever it stands.
pub proof fn law_other_characters_choose_the_fancy_engine(
    before: Seq<char>,
    c: char,
    after: Seq<char>,
)
    requires
        c as u32 == 0 || c as u32 > 0x7f,
    ensures
        ({
            let p = before + seq![c] + after;
            pattern::needs_fancy(p) && EngineView::of(p) == EngineView::Fancy(p)
        }),
{
    let p = before + seq![c] + after;
    assert(p[before.len() as int] == c);
    assert(!pattern::is_plain_ascii(p[before.len() as int]));
}

/// Law: the fancy engine is chosen for nothing else.
pub proof fn law_nothing_else_chooses_the_fancy_engine(p: Seq<char>)
    requires
        pattern::needs_fancy(p),
        forall|i: int| 0 <= i < p.len() ==> 0 < #[trigger] p[i] as u32 <= 0x7f,
    ensures
        exists|i: int|
            #![trigger p[i]]
            0 <= i < p.len() && escapes_nothing(p.take(i)) && (p[i] == '.' || i + 1 < p.len() && (
            p[i] == '[' && p[i + 1] == '^' || p[i] == '\\' && ("WwDdSsBbPp"@.contains(p[i + 1])
                || "0123456789"@.contains(p[i + 1])) || i + 2 < p.len() && p[i] == '(' && p[i + 1]
                == '?' && p[i + 2] == 'i')),
{
    assert forall|i: int| 0 <= i < p.len() implies pattern::is_plain_ascii(#[trigger] p[i]) by {
        lemma_plain_ascii(p[i]);
    }
    let i = choose|i: int|
        0 <= i < p.len() && #[trigger] pattern::unescaped_at(p, i) && pattern::fancy_item_at(p, i);
    assert(escapes_nothing(p.take(i)));
    if i + 1 < p.len() {
        lemma_letters(p[i + 1]);
    }
    assert(p[i] == p[i]);
}

/// The ASCII characters but NUL.
proof fn lemma_plain_ascii(c: char)
    requires
        0 < c as u32 <= 0x7f,
    ensures
        pattern::is_plain_ascii(c),
{
}

/// The letters and digits that can stand behind a backslash.
proof fn lemma_letters(c: char)
    ensures
        pattern::is_unicode_class(c) ==> "WwDdSsBbPp"@.contains(c),
        crate::syntax::is_digit(c) ==> "0123456789"@.contains(c),
{
    reveal_strlit("WwDdSsBbPp");
    reveal_strlit("0123456789");
    let s = "WwDdSsBbPp"@;
    let d = "0123456789"@;
    assert(s[0] == 'W' && s[1] == 'w' && s[2] == 'D' && s[3] == 'd' && s[4] == 'S' && s[5] == 's'
        && s[6] == 'B' && s[7] == 'b' && s[8] == 'P' && s[9] == 'p');
    assert(d[0] == '0' && d[1] == '1' && d[2] == '2' && d[3] == '3' && d[4] == '4' && d[5] == '5'
        && d[6] == '6' && d[7] == '7' && d[8] == '8' && d[9] == '9');
}

/// Law: wherever an operator, or a class letter, `A`, `z` or a digit behind a backslash stands without
/// being escaped, a regular expression is needed, and plain string matching is not chosen.
pub proof fn law_operators_need_a_regular_expression(
    before: Seq<char>,
    operator: char,
    letter: char,
    after: Seq<char>,
)
    requires
        escapes_nothing(before),
        ".?|+([{*"@.contains(operator),
        "WwDdSsPpAzBb0123456789"@.contains(letter),
    ensures
        ({
            let p = before + seq![operator] + after;
            pattern::needs_regex(p) && !(EngineView::of(p) is Literal)
        }),
        ({
            let p = before + seq!['\\', letter] + after;
            pattern::needs_regex(p) && !(EngineView::of(p) is Literal)
        }),
{
    reveal_strlit(".?|+([{*");
    reveal_strlit("WwDdSsPpAzBb0123456789");
    let n = before.len() as int;
    lemma_unescaped_behind(before, seq![operator] + after);
    lemma_unescaped_behind(before, seq!['\\', letter] + after);
    let p = before + seq![operator] + after;
    assert(p =~= before + (seq![operator] + after));
    assert(pattern::unescaped_at(p, n) && pattern::regex_item_at(p, n));
    let p = before + seq!['\\', letter] + after;
    assert(p =~= before + (seq!['\\', letter] + after));
    assert(pattern::unescaped_at(p, n) && pattern::regex_item_at(p, n));
}

/// Law: a regular expression is needed for nothing else.
pub proof fn law_nothing_else_needs_a_regular_expression(p: Seq<char>)
    requires
        pattern::needs_regex(p),
    ensures
        exists|i: int|
            #![trigger p[i]]
            0 <= i < p.len() && escapes_nothing(p.take(i)) && (".?|+([{*"@.contains(p[i]) || i + 1
                < p.len() && p[i] == '\\' && "WwDdSsPpAzBb0123456789"@.contains(p[i + 1])),
{
    let i = choose|i: int|
        0 <= i < p.len() && #[trigger] pattern::unescaped_at(p, i) && pattern::regex_item_at(p, i);
    assert(escapes_nothing(p.take(i)));
    lemma_operators(p[i]);
    if i + 1 < p.len() {
        lemma_operators(p[i + 1]);
    }
    assert(p[i] == p[i]);
}

/// The operators, and what can stand behind a backslash.
proof fn lemma_operators(c: char)
    ensures
        pattern::is_magic(c) ==> ".?|+([{*"@.contains(c),
        pattern::is_unicode_class(c) || c == 'A' || c == 'z' || crate::syntax::is_digit(c)
            ==> "WwDdSsPpAzBb0123456789"@.contains(c),
{
    reveal_strlit(".?|+([{*");
    reveal_strlit("WwDdSsPpAzBb0123456789");
    let m = ".?|+([{*"@;
    assert(m[0] == '.' && m[1] == '?' && m[2] == '|' && m[3] == '+' && m[4] == '(' && m[5] == '['
        && m[6] == '{' && m[7] == '*');
    let s = "WwDdSsPpAzBb0123456789"@;
    assert(s[0] == 'W' && s[1] == 'w' && s[2] == 'D' && s[3] == 'd' && s[4] == 'S' && s[5] == 's'
        && s[6] == 'P' && s[7] == 'p' && s[8] == 'A' && s[9] == 'z' && s[10] == 'B' && s[11] == 'b');
    assert(s[12] == '0' && s[13] == '1' && s[14] == '2' && s[15] == '3' && s[16] == '4' && s[17]
        == '5' && s[18] == '6' && s[19] == '7' && s[20] == '8' && s[21] == '9');
}

/// Law: the fastest engine that can run the pattern is chosen, and gets the pattern as it is; plain
/// string matching gets it without its escapes.
pub proof fn law_fastest_engine_is_chosen(p: Seq<char>)
    ensures
        pattern::needs_fancy(p) ==> EngineView::of(p) == EngineView::Fancy(p),
        !pattern::needs_fancy(p) && pattern::needs_regex(p) ==> EngineView::of(p)
            == EngineView::Byte(p),
        !pattern::needs_fancy(p) && !pattern::needs_regex(p) ==> EngineView::of(p)
            == EngineView::Literal(LiteralView::anchored(encode_utf8(pattern::unescape(p)))),
{
}

/// Law: escapes are removed piece by piece: a backslash goes and what it escapes stays; any other
/// character stays; and a backslash at the end escapes nothing.
pub proof fn law_escapes_are_removed_piece_by_piece(c: char, rest: Seq<char>)
    ensures
        c != '\\' ==> pattern::unescape(seq![c] + rest) == seq![c] + pattern::unescape(rest),
        pattern::unescape(seq!['\\', c] + rest) == seq![c] + pattern::unescape(rest),
        pattern::unescape(seq!['\\']) == Seq::<char>::empty(),
        pattern::unescape(Seq::<char>::empty()) == Seq::<char>::empty(),
{
    assert((seq![c] + rest).skip(1) =~= rest);
    assert((seq!['\\', c] + rest).skip(2) =~= rest);
}

// Matches and capture groups

/// Law: a group took part just if the engine says so, and then starts and ends where the engine says,
/// and holds what stands there; and so for each group.
pub proof fn law_groups_are_those_of_the_engine(
    haystack: Seq<u8>,
    spans: Seq<Option<(usize, usize)>>,
    found: Seq<Option<(usize, usize, &str)>>,
)
    ensures
        captures::pieces(haystack, spans).len() == spans.len(),
        forall|i: int|
            #![trigger spans[i]]
            #![trigger captures::pieces(haystack, spans)[i]]
            0 <= i < spans.len() ==> match spans[i] {
                Some(span) => captures::pieces(haystack, spans)[i] == Some(
                    MatchView {
                        start: span.0 as int,
                        end: span.1 as int,
                        bytes: haystack.subrange(span.0 as int, span.1 as int),
                    },
                ),
                None => captures::pieces(haystack, spans)[i] is None,
            },
        captures::text_groups(found).len() == found.len(),
        forall|i: int|
            #![trigger found[i]]
            #![trigger captures::text_groups(found)[i]]
            0 <= i < found.len() ==> match found[i] {
                Some(m) => captures::text_groups(found)[i] == Some(
                    MatchView { start: m.0 as int, end: m.1 as int, bytes: encode_utf8(m.2@) },
                ),
                None => captures::text_groups(found)[i] is None,
            },
        fancy_engine::spans(found).len() == found.len(),
        forall|i: int|
            #![trigger fancy_engine::spans(found)[i]]
            0 <= i < found.len() ==> match found[i] {
                Some(m) => fancy_engine::spans(found)[i] == Some((m.0, m.1)),
                None => fancy_engine::spans(found)[i] is None,
            },
{
}

/// Law: captures hold the groups that they were made of, and the captures of a literal hold the match.
pub proof fn law_captures_hold_their_groups(caps: captures::Captures<'_>)
    ensures
        match caps {
            captures::Captures::Literal(m) => caps@.len() == 1 && caps@[0] == Some(m@),
            captures::Captures::Byte(groups) => caps@ == groups@,
            captures::Captures::Fancy(groups) => caps@ == groups@,
        },
{
}

/// Law: a result is the match, the groups, none or the error that it holds.
pub proof fn law_results_are_what_they_hold(
    m: captures::Match<'_>,
    caps: captures::Captures<'_>,
    e: SedError,
)
    ensures
        captures::match_result(Ok(Some(m))) == Ok::<Option<MatchView>, ErrorView>(Some(m@)),
        captures::match_result(Ok(None)) == Ok::<Option<MatchView>, ErrorView>(None),
        captures::match_result(Err(e)) == Err::<Option<MatchView>, ErrorView>(e@),
        captures::captures_result(Ok(Some(caps))) == Ok::<
            Option<Seq<Option<MatchView>>>,
            ErrorView,
        >(Some(caps@)),
        captures::captures_result(Ok(None)) == Ok::<Option<Seq<Option<MatchView>>>, ErrorView>(
            None,
        ),
        captures::captures_result(Err(e)) == Err::<Option<Seq<Option<MatchView>>>, ErrorView>(e@),
        captures::next_result(Some(Ok(caps))) == Some(
            Ok::<Seq<Option<MatchView>>, ErrorView>(caps@),
        ),
        captures::next_result(Some(Err(e))) == Some(
            Err::<Seq<Option<MatchView>>, ErrorView>(e@),
        ),
        captures::next_result(None) is None,
{
}

/// Law: a match that is text is given as it is, and any other is an error with the code.
pub proof fn law_matches_must_be_text(m: MatchView, code: i32)
    ensures
        valid_utf8(m.bytes) ==> captures::text_or_error(m, code) == Ok::<
            Option<MatchView>,
            ErrorView,
        >(Some(m)),
        !valid_utf8(m.bytes) ==> captures::text_or_error(m, code) == Err::<
            Option<MatchView>,
            ErrorView,
        >(ErrorView::Simple { code, message: text::utf8_error_text(m.bytes) }),
        captures::retrieval_error() == "error retrieving RE captures: "@,
{
}

/// Law: groups that lie in a line start and end there, and a match that comes behind another starts no
/// earlier than that ends.
pub proof fn law_places_are_in_the_line(
    groups: Seq<Option<MatchView>>,
    earlier: Seq<Option<MatchView>>,
    len: nat,
)
    ensures
        captures::all_lie_in(groups, len) ==> forall|i: int|
            0 <= i < groups.len() ==> match #[trigger] groups[i] {
                Some(m) => 0 <= m.start && m.start <= m.end && m.end <= len,
                None => true,
            },
        matcher::is_behind(groups, earlier) ==> (groups[0] matches Some(m) && earlier[0] matches Some(
            other,
        ) && other.end <= m.start),
        forall|m: MatchView|
            #[trigger] captures::lies_in(m, len) ==> 0 <= m.start && m.start <= m.end && m.end
                <= len,
{
    if captures::all_lie_in(groups, len) {
        assert forall|i: int| 0 <= i < groups.len() implies match #[trigger] groups[i] {
            Some(m) => 0 <= m.start && m.start <= m.end && m.end <= len,
            None => true,
        } by {}
    }
}

// Searching

/// Law: an engine stands for the pattern that it was made of.
pub proof fn law_engine_stands_for_its_pattern(engine: RegexEngine)
    requires
        engine.wf(),
    ensures
        match engine {
            RegexEngine::Literal(m) => engine@ == EngineView::Literal(m@),
            RegexEngine::Byte(re) => byte_engine::byte_source(re) matches Some(p) && engine@
                == EngineView::Byte(p),
            RegexEngine::Fancy(re) => fancy_engine::fancy_source(re) matches Some(p) && engine@
                == EngineView::Fancy(p) && !pattern::refers_to_itself(p),
        },
{
}

/// Law: text without special characters is searched for as it is: it is found where it stands, and
/// with an anchor where the anchor asks for it, even if nothing else is there; and what is found is
/// that text.
pub proof fn law_plain_text_is_found(p: Seq<char>, before: Seq<u8>, after: Seq<u8>)
    requires
        p.len() > 0,
        forall|i: int| 0 <= i < p.len() ==> 0 < #[trigger] p[i] as u32 <= 0x7f,
        forall|i: int| 0 <= i < p.len() ==> !"\\.?|+([{*^$"@.contains(#[trigger] p[i]),
    ensures
        ({
            let text = encode_utf8(p);
            &&& EngineView::of(p).first_match(before + text + after) matches Ok(Some(m)) && 0
                <= m.start <= before.len() && m.end == m.start + text.len() && m.bytes == text
            &&& EngineView::of(seq!['^'] + p).first_match(text + after) matches Ok(Some(m))
                && m.start == 0 && m.end == text.len() && m.bytes == text
            &&& EngineView::of(p + seq!['$']).first_match(before + text) matches Ok(Some(m))
                && m.start == before.len() && m.bytes == text
            &&& EngineView::of(seq!['^'] + p + seq!['$']).first_match(text) matches Ok(Some(m))
                && m.start == 0 && m.bytes == text
        }),
{
    let text = encode_utf8(p);
    let begin = seq!['^'] + p;
    let end = p + seq!['$'];
    let both = seq!['^'] + p + seq!['$'];
    lemma_special(p);
    assert forall|i: int| 0 <= i < both.len() implies {
        &&& 0 < #[trigger] both[i] as u32 <= 0x7f
        &&& is_plain(both[i])
    } by {
        if 0 < i <= p.len() {
            assert(both[i] == p[i - 1]);
        }
    }
    assert forall|i: int| 0 <= i < begin.len() implies {
        &&& 0 < #[trigger] begin[i] as u32 <= 0x7f
        &&& is_plain(begin[i])
    } by {
        assert(begin[i] == both[i]);
    }
    assert forall|i: int| 0 <= i < end.len() implies {
        &&& 0 < #[trigger] end[i] as u32 <= 0x7f
        &&& is_plain(end[i])
    } by {
        assert(end[i] == both[i + 1]);
    }
    lemma_plain_pattern(p);
    lemma_plain_pattern(begin);
    lemma_plain_pattern(end);
    lemma_plain_pattern(both);
    lemma_ascii_encoding(p);
    lemma_ascii_encoding(begin);
    lemma_ascii_encoding(end);
    lemma_ascii_encoding(both);
    assert(encode_utf8(begin) =~= seq![0x5eu8] + text);
    assert(encode_utf8(end) =~= text + seq![0x24u8]);
    assert(encode_utf8(both) =~= seq![0x5eu8] + text + seq![0x24u8]);
    assert(text[0] == p[0] as u8 && text.last() == p.last() as u8);
    lemma_no_anchor(p[0]);
    lemma_no_anchor(p.last());
    law_anchors_are_taken_off(text);
    law_needle_is_found_if_it_is_there(text, before, after);
    lemma_literal_results(
        LiteralView { needle: text, match_type: AnchoredMatch::Free },
        before + text + after,
    );
    lemma_literal_results(
        LiteralView { needle: text, match_type: AnchoredMatch::Begin },
        text + after,
    );
    lemma_literal_results(
        LiteralView { needle: text, match_type: AnchoredMatch::End },
        before + text,
    );
    lemma_literal_results(LiteralView { needle: text, match_type: AnchoredMatch::Both }, text);
}

/// A character that is no operator and no backslash.
spec fn is_plain(c: char) -> bool {
    c != '\\' && c != '.' && c != '?' && c != '|' && c != '+' && c != '(' && c != '[' && c != '{' && c
        != '*'
}

/// What holds none of the special characters.
proof fn lemma_special(p: Seq<char>)
    requires
        forall|i: int| 0 <= i < p.len() ==> !"\\.?|+([{*^$"@.contains(#[trigger] p[i]),
    ensures
        forall|i: int| 0 <= i < p.len() ==> is_plain(#[trigger] p[i]) && p[i] != '^' && p[i] != '$',
{
    reveal_strlit("\\.?|+([{*^$");
    let s = "\\.?|+([{*^$"@;
    assert(s[0] == '\\' && s[1] == '.' && s[2] == '?' && s[3] == '|' && s[4] == '+' && s[5] == '('
        && s[6] == '[' && s[7] == '{' && s[8] == '*' && s[9] == '^' && s[10] == '$');
}

/// A pattern of plain characters is matched as a literal.
proof fn lemma_plain_pattern(p: Seq<char>)
    requires
        forall|i: int| 0 <= i < p.len() ==> 0 < #[trigger] p[i] as u32 <= 0x7f,
        forall|i: int| 0 <= i < p.len() ==> is_plain(#[trigger] p[i]),
    ensures
        EngineView::of(p) == EngineView::Literal(LiteralView::anchored(encode_utf8(p))),
{
    assert forall|i: int| 0 <= i < p.len() implies pattern::is_plain_ascii(#[trigger] p[i]) by {
        lemma_plain_ascii(p[i]);
    }
    assert(!p.contains('\\'));
    pattern::law_nothing_to_unescape(p);
}

/// A character that is no anchor is no byte of one.
proof fn lemma_no_anchor(c: char)
    requires
        0 < c as u32 <= 0x7f,
    ensures
        c != '^' ==> c as u8 != 0x5e,
        c != '$' ==> c as u8 != 0x24,
{
}

/// ASCII text is encoded as one byte for each character.
proof fn lemma_ascii_encoding(p: Seq<char>)
    requires
        forall|i: int| 0 <= i < p.len() ==> 0 < #[trigger] p[i] as u32 <= 0x7f,
    ensures
        encode_utf8(p).len() == p.len(),
        forall|i: int| 0 <= i < p.len() ==> #[trigger] encode_utf8(p)[i] == p[i] as u8,
{
    assert forall|i: int| 0 <= i < p.len() implies '\0' <= #[trigger] p[i] <= '\u{7f}' by {
        lemma_plain_ascii(p[i]);
    }
    is_ascii_chars_encode_utf8(p);
}

/// Law: the byte engine's results are handed on: the first match, its groups, and those of each match.
pub proof fn law_byte_results_are_handed_on(p: Seq<char>, haystack: Seq<u8>, n: nat)
    ensures
        match byte_engine::byte_find(p, haystack) {
            Some(span) => EngineView::Byte(p).first_match(haystack) == Ok::<
                Option<MatchView>,
                Seq<char>,
            >(
                Some(
                    MatchView {
                        start: span.0 as int,
                        end: span.1 as int,
                        bytes: haystack.subrange(span.0 as int, span.1 as int),
                    },
                ),
            ),
            None => EngineView::Byte(p).first_match(haystack) matches Ok(None),
        },
        match byte_engine::byte_captures(p, haystack) {
            Some(groups) => EngineView::Byte(p).first_captures(haystack) matches Ok(Some(g)) && g
                == captures::pieces(haystack, groups),
            None => EngineView::Byte(p).first_captures(haystack) matches Ok(None),
        },
        match byte_engine::byte_nth(p, haystack, n) {
            Some(groups) => EngineView::Byte(p).nth_captures(haystack, n) matches Some(Ok(g)) && g
                == captures::pieces(haystack, groups),
            None => EngineView::Byte(p).nth_captures(haystack, n) is None,
        },
        EngineView::Byte(p).captures_len() == byte_engine::byte_captures_len(p),
        EngineView::Byte(p).rejection() == byte_engine::byte_rejection(p),
        !EngineView::Byte(p).keeps_behind(),
{
}

/// Law: the fancy engine's results on a text are handed on for its encoding: the first match, its
/// groups, those of each match, and its errors.
pub proof fn law_fancy_results_are_handed_on(p: Seq<char>, text: Seq<char>, n: nat)
    ensures
        ({
            let haystack = encode_utf8(text);
            &&& match fancy_engine::fancy_find(p, text) {
                Ok(Some(span)) => EngineView::Fancy(p).first_match(haystack) == Ok::<
                    Option<MatchView>,
                    Seq<char>,
                >(
                    Some(
                        MatchView {
                            start: span.0 as int,
                            end: span.1 as int,
                            bytes: haystack.subrange(span.0 as int, span.1 as int),
                        },
                    ),
                ),
                Ok(None) => EngineView::Fancy(p).first_match(haystack) matches Ok(None),
                Err(e) => EngineView::Fancy(p).first_match(haystack) matches Err(other) && other
                    == e,
            }
            &&& match fancy_engine::fancy_captures(p, text) {
                Ok(Some(groups)) => EngineView::Fancy(p).first_captures(haystack) matches Ok(
                    Some(g),
                ) && g == captures::pieces(haystack, groups),
                Ok(None) => EngineView::Fancy(p).first_captures(haystack) matches Ok(None),
                Err(e) => EngineView::Fancy(p).first_captures(haystack) matches Err(other) && other
                    == e,
            }
            &&& match fancy_engine::fancy_nth(p, text, n) {
                Some(Ok(groups)) => EngineView::Fancy(p).nth_captures(haystack, n) matches Some(
                    Ok(g),
                ) && g == captures::pieces(haystack, groups),
                Some(Err(e)) => EngineView::Fancy(p).nth_captures(haystack, n) matches Some(
                    Err(other),
                ) && other == e,
                None => EngineView::Fancy(p).nth_captures(haystack, n) is None,
            }
        }),
        EngineView::Fancy(p).captures_len() == fancy_engine::fancy_captures_len(p),
        EngineView::Fancy(p).rejection() == fancy_engine::fancy_rejection(p),
        EngineView::Fancy(p).keeps_behind() == pattern::keeps_behind(p),
{
    broadcast use encode_utf8_decode_utf8;

}

/// The match of a literal, as the one group of its captures.
proof fn lemma_literal_results(matcher: LiteralView, haystack: Seq<u8>)
    ensures
        match matcher.find(haystack) {
            Some(i) => {
                let m = MatchView { start: i, end: i + matcher.needle.len(), bytes: matcher.needle };
                &&& EngineView::Literal(matcher).first_match(haystack) == Ok::<
                    Option<MatchView>,
                    Seq<char>,
                >(Some(m))
                &&& EngineView::Literal(matcher).first_captures(haystack) matches Ok(Some(g))
                    && g.len() == 1 && g[0] == Some(m)
            },
            None => {
                &&& EngineView::Literal(matcher).first_match(haystack) matches Ok(None)
                &&& EngineView::Literal(matcher).first_captures(haystack) matches Ok(None)
            },
        },
{
    law_only_the_needle_is_found(matcher, haystack);
}

/// Law: a literal's first match is the needle where it is found, and is its only group.
pub proof fn law_literal_results_are_the_needle(matcher: LiteralView, haystack: Seq<u8>)
    ensures
        match matcher.find(haystack) {
            Some(i) => {
                let m = MatchView { start: i, end: i + matcher.needle.len(), bytes: matcher.needle };
                &&& EngineView::Literal(matcher).first_match(haystack) == Ok::<
                    Option<MatchView>,
                    Seq<char>,
                >(Some(m))
                &&& EngineView::Literal(matcher).first_captures(haystack) matches Ok(Some(g))
                    && g.len() == 1 && g[0] == Some(m)
            },
            None => {
                &&& EngineView::Literal(matcher).first_match(haystack) matches Ok(None)
                &&& EngineView::Literal(matcher).first_captures(haystack) matches Ok(None)
            },
        },
        EngineView::Literal(matcher).captures_len() == 1,
        EngineView::Literal(matcher).rejection() is None,
        !EngineView::Literal(matcher).keeps_behind(),
{
    lemma_literal_results(matcher, haystack);
}

/// Law: the iteration over a literal's matches gives all that are found, in order, and ends behind the
/// last one.
pub proof fn law_literal_iteration_gives_all(matcher: LiteralView, haystack: Seq<u8>, n: nat)
    ensures
        ({
            let all = matcher.find_all(haystack);
            if n < all.len() {
                EngineView::Literal(matcher).nth_captures(haystack, n) matches Some(Ok(g))
                    && g.len() == 1 && g[0] == Some(
                    MatchView {
                        start: all[n as int],
                        end: all[n as int] + matcher.needle.len(),
                        bytes: matcher.needle,
                    },
                )
            } else {
                EngineView::Literal(matcher).nth_captures(haystack, n) is None
            }
        }),
{
    law_matches_follow_each_other(matcher, haystack, n as int);
}

/// Law: the iteration over the matches of a needle without anchors misses no occurrence: each one
/// starts a match that it gives or lies in one.
pub proof fn law_literal_iteration_misses_nothing(
    needle: Seq<u8>,
    before: Seq<u8>,
    after: Seq<u8>,
)
    ensures
        ({
            let engine = EngineView::Literal(
                LiteralView { needle, match_type: AnchoredMatch::Free },
            );
            exists|n: nat|
                #[trigger] engine.nth_captures(before + needle + after, n) matches Some(Ok(g))
                    && g.len() == 1 && (g[0] matches Some(m) && (m.start == before.len() || m.start
                    < before.len() < m.end))
        }),
{
    let matcher = LiteralView { needle, match_type: AnchoredMatch::Free };
    let haystack = before + needle + after;
    let all = matcher.find_all(haystack);
    law_no_match_is_missed(needle, before, after);
    let k = choose|k: int|
        0 <= k < all.len() && (#[trigger] all[k] == before.len() || all[k] < before.len() < all[k]
            + needle.len());
    law_literal_iteration_gives_all(matcher, haystack, k as nat);
    let g = EngineView::Literal(matcher).nth_captures(haystack, k as nat);
    assert(g is Some);
}

/// Law: a search of bytes that are no text fails for the fancy engine alone; what the engine finds is
/// given; and where it gives up, that is an error at the place of the regular expression.
pub proof fn law_searches_give_what_the_engine_finds(re: RegexView, bytes: Seq<u8>)
    ensures
        re.engine is Fancy && !valid_utf8(bytes) ==> {
            let e = ErrorView::Simple { code: 2, message: text::utf8_error_text(bytes) };
            &&& re.refuses(bytes)
            &&& re.is_match(bytes) == Err::<bool, ErrorView>(e)
            &&& re.find(bytes) == Err::<Option<MatchView>, ErrorView>(e)
            &&& re.captures(bytes) == Err::<Option<Seq<Option<MatchView>>>, ErrorView>(e)
        },
        !(re.engine is Fancy) || valid_utf8(bytes) ==> {
            &&& !re.refuses(bytes)
            &&& match re.engine.first_match(bytes) {
                Ok(Some(m)) => {
                    &&& re.is_match(bytes) == Ok::<bool, ErrorView>(true)
                    &&& !(re.engine is Byte) || valid_utf8(m.bytes) ==> re.find(bytes) == Ok::<
                        Option<MatchView>,
                        ErrorView,
                    >(Some(m))
                    &&& re.engine is Byte && !valid_utf8(m.bytes) ==> re.find(bytes) == Err::<
                        Option<MatchView>,
                        ErrorView,
                    >(ErrorView::Simple { code: 2, message: text::utf8_error_text(m.bytes) })
                },
                Ok(None) => {
                    &&& re.is_match(bytes) == Ok::<bool, ErrorView>(false)
                    &&& re.find(bytes) == Ok::<Option<MatchView>, ErrorView>(None)
                },
                Err(message) => {
                    let e = ErrorView::Runtime { location: re.location, message };
                    &&& re.is_match(bytes) == Err::<bool, ErrorView>(e)
                    &&& re.find(bytes) == Err::<Option<MatchView>, ErrorView>(e)
                },
            }
            &&& match re.engine.first_captures(bytes) {
                Ok(groups) => re.captures(bytes) == Ok::<
                    Option<Seq<Option<MatchView>>>,
                    ErrorView,
                >(groups),
                Err(message) => re.captures(bytes) == Err::<
                    Option<Seq<Option<MatchView>>>,
                    ErrorView,
                >(ErrorView::Runtime { location: re.location, message }),
            }
        },
{
}

// Output

/// What the span holds in a memory of bytes by their addresses.
pub open spec fn read_span(memory: spec_fn(int) -> u8, span: Span) -> Seq<u8> {
    Seq::new(span.len as nat, |i: int| memory(span.start + i))
}

/// Whether a step that writes a span holds what the memory holds there.
pub open spec fn step_is_true(memory: spec_fn(int) -> u8, step: OutputView) -> bool {
    match step {
        OutputView::Buffered(span, bytes) => bytes == read_span(memory, span),
        OutputView::Direct(span, bytes) => bytes == read_span(memory, span),
        _ => true,
    }
}

/// Law: a span that is written lies over exactly the bytes that it is said to hold, wherever mapped
/// data lies in memory: if that is so of what is pending and of the data that is scheduled, it is so
/// of each step and of what is then pending. So data can only grow by what follows it in memory.
pub proof fn law_spans_lie_over_their_bytes(
    memory: spec_fn(int) -> u8,
    pending: Option<Pending>,
    data: Pending,
    bytes: Seq<u8>,
    newline: bool,
)
    requires
        pending matches Some(p) ==> p.span.start + p.span.len <= usize::MAX && p.bytes == read_span(
            memory,
            p.span,
        ),
        data.span.start + data.span.len <= usize::MAX,
        data.bytes == read_span(memory, data.span),
    ensures
        output::pending_after(pending, data) matches Some(p) && p.span.start + p.span.len
            <= usize::MAX && p.bytes == read_span(memory, p.span),
        forall|k: int|
            0 <= k < output::span_steps(pending, data.span).len() ==> step_is_true(
                memory,
                #[trigger] output::span_steps(pending, data.span)[k],
            ),
        forall|k: int|
            0 <= k < output::flush_steps(pending).len() ==> step_is_true(
                memory,
                #[trigger] output::flush_steps(pending)[k],
            ),
        forall|k: int|
            0 <= k < output::bytes_steps(pending, bytes, newline).len() ==> step_is_true(
                memory,
                #[trigger] output::bytes_steps(pending, bytes, newline)[k],
            ),
{
    let after = output::pending_after(pending, data)->0;
    assert(after.bytes =~= read_span(memory, after.span));
}

/// Law: data that follows the pending data in memory joins it, and then nothing is written and all of
/// it is one span; unless there were 64k pending already. Any other data is pending alone, once what
/// was pending is written.
pub proof fn law_adjacent_data_is_one_write(p: Pending, data: Pending)
    requires
        p.span.start + p.span.len <= usize::MAX,
        data.span.start + data.span.len <= usize::MAX,
    ensures
        data.span.start == p.span.start + p.span.len && p.span.len < 65536 ==> {
            &&& output::span_steps(Some(p), data.span).len() == 0
            &&& output::pending_after(Some(p), data) matches Some(all) && all.span.start
                == p.span.start && all.span.len == p.span.len + data.span.len && all.bytes == p.bytes
                + data.bytes
        },
        data.span.start != p.span.start + p.span.len || p.span.len >= 65536 ==> {
            &&& output::span_steps(Some(p), data.span) == output::flush_steps(Some(p))
            &&& output::pending_after(Some(p), data) == Some(data)
        },
        output::span_steps(None, data.span).len() == 0,
        output::pending_after(None, data) == Some(data),
{
}

/// Law: pending data is written once: through the buffer if it is shorter than 4k, and else past the
/// buffer, which is flushed right before.
pub proof fn law_pending_data_is_written_once(p: Pending)
    ensures
        p.span.len < 4096 ==> output::flush_steps(Some(p)) == seq![
            OutputView::Buffered(p.span, p.bytes),
        ],
        p.span.len >= 4096 ==> output::flush_steps(Some(p)) == seq![
            OutputView::Flush,
            OutputView::Direct(p.span, p.bytes),
        ],
        output::flush_steps(None).len() == 0,
        output::pending_bytes(Some(p)) == p.bytes,
        output::pending_bytes(None).len() == 0,
{
}

/// Law: steps do what they say: bytes and short spans go to the buffer, behind what is there; a flush
/// hands the buffer to the writer; and a direct write goes to the writer, past the buffer.
pub proof fn law_steps_do_what_they_say(
    sink: Sink,
    bytes: Seq<u8>,
    span: Span,
    plan: Seq<OutputView>,
    step: OutputView,
)
    ensures
        sink.perform(OutputView::Bytes(bytes)) == (Sink {
            file: sink.file,
            buffered: sink.buffered + bytes,
        }),
        sink.perform(OutputView::Buffered(span, bytes)) == (Sink {
            file: sink.file,
            buffered: sink.buffered + bytes,
        }),
        sink.perform(OutputView::Flush) == (Sink {
            file: sink.file + sink.buffered,
            buffered: Seq::empty(),
        }),
        sink.perform(OutputView::Direct(span, bytes)) == (Sink {
            file: sink.file + bytes,
            buffered: sink.buffered,
        }),
        sink.perform_all(Seq::empty()) == sink,
        sink.perform_all(plan.push(step)) == sink.perform_all(plan).perform(step),
{
    assert(plan.push(step).drop_last() =~= plan);
}

/// Law: a plan that puts bytes behind all else leaves what was in the file, in the buffer and pending,
/// in this order, and then the bytes; and one that hands all over leaves it in the file alone.
pub proof fn law_nothing_is_lost_or_moved(
    sink: Sink,
    before: Option<Pending>,
    plan: Seq<OutputView>,
    after: Option<Pending>,
    bytes: Seq<u8>,
)
    ensures
        output::puts_behind(before, plan, after, bytes) ==> {
            let done = sink.perform_all(plan);
            done.file + done.buffered + (match after {
                Some(p) => p.bytes,
                None => Seq::empty(),
            }) == sink.file + sink.buffered + (match before {
                Some(p) => p.bytes,
                None => Seq::empty(),
            }) + bytes
        },
        output::hands_over(before, plan) ==> {
            let done = sink.perform_all(plan);
            &&& done.buffered.len() == 0
            &&& done.file == sink.file + sink.buffered + (match before {
                Some(p) => p.bytes,
                None => Seq::empty(),
            })
        },
{
    let done = sink.perform_all(plan);
    if output::puts_behind(before, plan, after, bytes) {
        assert(done.total(after) == sink.total(before) + bytes);
    }
    if output::hands_over(before, plan) {
        assert(done == (Sink { file: sink.total(before), buffered: Seq::empty() }));
    }
}

/// Law: writing bytes and flushing right away leaves all that was there before in the file, then the
/// bytes, and the newline if one was asked for.
pub proof fn law_what_is_written_gets_to_the_file(
    sink: Sink,
    pending: Option<Pending>,
    bytes: Seq<u8>,
    newline: bool,
)
    ensures
        sink.perform_all(output::bytes_steps(pending, bytes, newline)).perform_all(
            output::flush_steps(None).push(OutputView::Flush),
        ).file == sink.file + sink.buffered + (match pending {
            Some(p) => p.bytes,
            None => Seq::empty(),
        }) + bytes + if newline {
            seq![0x0au8]
        } else {
            Seq::empty()
        },
{
    let plan = output::bytes_steps(pending, bytes, newline);
    let given = output::with_newline(bytes, newline);
    output::law_bytes_go_behind(pending, bytes, newline);
    output::law_flush_hands_over(None);
    law_nothing_is_lost_or_moved(sink, pending, plan, None, given);
    let written = sink.perform_all(plan);
    let flush = output::flush_steps(None).push(OutputView::Flush);
    law_nothing_is_lost_or_moved(written, None, flush, None, Seq::empty());
    let all = sink.file + sink.buffered + (match pending {
        Some(p) => p.bytes,
        None => Seq::empty(),
    });
    assert(all + given =~= all + bytes + if newline {
        seq![0x0au8]
    } else {
        Seq::empty()
    });
}

/// Law: a chunk is written with its newline: a mapped one as it stands in the file, and an owned one
/// with a newline if it has one.
pub proof fn law_chunks_are_written_whole(
    content: &[u8],
    full_span: &[u8],
    text: String,
    has_newline: bool,
)
    ensures
        output::chunk_bytes(IOChunkContent::MmapInput { content, full_span }) == full_span@,
        output::chunk_bytes(IOChunkContent::Owned { content: text, has_newline }) == encode_utf8(
            text@,
        ) + if has_newline {
            seq![0x0au8]
        } else {
            Seq::empty()
        },
{
    let bytes = encode_utf8(text@);
    assert(bytes + seq![0x0au8] =~= bytes.push(0x0au8));
    assert(bytes + Seq::<u8>::empty() =~= bytes);
}

/// Law: a plan stands for its steps, one by one.
pub proof fn law_plans_stand_for_their_steps(plan: Seq<Output<'_>>)
    ensures
        output::steps(plan).len() == plan.len(),
        forall|i: int|
            #![trigger plan[i]]
            #![trigger output::steps(plan)[i]]
            0 <= i < plan.len() ==> output::steps(plan)[i] == match plan[i] {
                Output::Bytes(bytes) => OutputView::Bytes(bytes@),
                Output::Buffered(span, bytes) => OutputView::Buffered(span, bytes@),
                Output::Flush => OutputView::Flush,
                Output::Direct(span, bytes) => OutputView::Direct(span, bytes@),
            },
{
}

} // verus!
