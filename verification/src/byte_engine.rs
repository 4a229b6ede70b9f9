//! The byte engine: what the library relies on of the regular expressions of the `regex` crate.
use regex::bytes::{CaptureMatches as ByteCaptureMatches, Regex as ByteRegex};
use vstd::prelude::*;

verus! {

/// A regular expression on bytes.
#[verifier::external_type_specification]
#[verifier::external_body]
pub struct ExByteRegex(ByteRegex);

/// The capture groups of the successive matches in a haystack.
#[verifier::external_type_specification]
#[verifier::external_body]
pub struct ExByteCaptureMatches<'r, 'h>(ByteCaptureMatches<'r, 'h>);

/// The pattern that a regular expression was made of, if it was made with the default options.
pub uninterp spec fn byte_source(re: ByteRegex) -> Option<Seq<char>>;

/// What the error of `regex::bytes::Regex::new` displays, or `None` if it makes a regular
/// expression of the pattern.
pub uninterp spec fn byte_rejection(pattern: Seq<char>) -> Option<Seq<char>>;

/// Where the first match of the pattern in the haystack starts and ends.
pub uninterp spec fn byte_find(pattern: Seq<char>, haystack: Seq<u8>) -> Option<(usize, usize)>;

/// Where the capture groups of the first match of the pattern in the haystack start and end, with
/// `None` for a group that did not take part.
pub uninterp spec fn byte_captures(pattern: Seq<char>, haystack: Seq<u8>) -> Option<
    Seq<Option<(usize, usize)>>,
>;

/// The number of capture groups of the pattern, with group 0, which is the whole match.
pub uninterp spec fn byte_captures_len(pattern: Seq<char>) -> usize;

/// The capture groups of the matches of the pattern in the haystack, by the number of the match,
/// or `None` behind the last one.
pub uninterp spec fn byte_nth(pattern: Seq<char>, haystack: Seq<u8>, n: nat) -> Option<
    Seq<Option<(usize, usize)>>,
>;

/// How far an iteration over capture groups has come.
pub struct ByteProgress {
    pub pattern: Seq<char>,
    pub haystack: Seq<u8>,
    /// How often the next match was asked for.
    pub calls: nat,
}

/// How far the iteration has come, if it is one over the matches of a regular expression that was
/// made with the default options.
pub uninterp spec fn byte_progress(it: ByteCaptureMatches<'_, '_>) -> Option<ByteProgress>;

/// Whether a span lies in a haystack of the given length.
pub open spec fn is_span(span: (usize, usize), len: nat) -> bool {
    span.0 <= span.1 <= len
}

/// Whether these are the capture groups of a match in a haystack of the given length: group 0 took
/// part, and each group that did lies in the haystack.
pub open spec fn are_groups(groups: Seq<Option<(usize, usize)>>, len: nat) -> bool {
    &&& groups.len() > 0
    &&& groups[0] is Some
    &&& forall|i: int|
        0 <= i < groups.len() ==> (#[trigger] groups[i] matches Some(span) ==> is_span(span, len))
}

/// Whether a match comes behind another: it does not start before the other ends.
pub open spec fn comes_behind(
    groups: Seq<Option<(usize, usize)>>,
    earlier: Seq<Option<(usize, usize)>>,
) -> bool {
    &&& groups.len() > 0
    &&& earlier.len() > 0
    &&& groups[0] matches Some(span) && earlier[0] matches Some(other) && other.1 <= span.0
}

/// `regex::bytes::Regex::new` makes a regular expression of a pattern, or fails. Which patterns it
/// rejects, and how its error reads, is named, not stated.
#[verifier::external_body]
pub(crate) fn new(pattern: &str) -> (r: Result<ByteRegex, String>)
    ensures
        match r {
            Ok(re) => byte_rejection(pattern@) is None && byte_source(re) == Some(pattern@),
            Err(message) => byte_rejection(pattern@) == Some(message@),
        },
{
    match ByteRegex::new(pattern) {
        Ok(re) => Ok(re),
        Err(e) => Err(e.to_string()),
    }
}

/// `regex::bytes::Regex::clone` gives the same regular expression.
#[verifier::external_body]
pub(crate) fn clone(re: &ByteRegex) -> (r: ByteRegex)
    ensures
        byte_source(r) == byte_source(*re),
{
    re.clone()
}

/// `regex::bytes::Regex::is_match` tells whether there is a match, the one that `find` returns.
#[verifier::external_body]
pub(crate) fn is_match(re: &ByteRegex, haystack: &[u8]) -> (r: bool)
    requires
        byte_source(*re) is Some,
    ensures
        r == byte_find(byte_source(*re)->0, haystack@) is Some,
{
    re.is_match(haystack)
}

/// `regex::bytes::Regex::find` returns the first match. It lies in the haystack.
#[verifier::external_body]
pub(crate) fn find(re: &ByteRegex, haystack: &[u8]) -> (r: Option<(usize, usize)>)
    requires
        byte_source(*re) is Some,
    ensures
        r == byte_find(byte_source(*re)->0, haystack@),
        r matches Some(span) ==> is_span(span, haystack@.len()),
{
    re.find(haystack).map(|m| (m.start(), m.end()))
}

/// `regex::bytes::Regex::captures` returns the capture groups of the first match: as many as
/// `captures_len` tells, of which group 0 is what `find` returns.
#[verifier::external_body]
pub(crate) fn captures(re: &ByteRegex, haystack: &[u8]) -> (r: Option<
    Vec<Option<(usize, usize)>>,
>)
    requires
        byte_source(*re) is Some,
    ensures
        match r {
            Some(groups) => {
                &&& byte_captures(byte_source(*re)->0, haystack@) == Some(groups@)
                &&& are_groups(groups@, haystack@.len())
                &&& groups@.len() == byte_captures_len(byte_source(*re)->0)
                &&& groups@[0] == byte_find(byte_source(*re)->0, haystack@)
            },
            None => {
                &&& byte_captures(byte_source(*re)->0, haystack@) is None
                &&& byte_find(byte_source(*re)->0, haystack@) is None
            },
        },
{
    let caps = re.captures(haystack)?;
    Some(caps.iter().map(|m| m.map(|m| (m.start(), m.end()))).collect())
}

/// `regex::bytes::Regex::captures_len` returns the number of capture groups. There is always
/// group 0.
#[verifier::external_body]
pub(crate) fn captures_len(re: &ByteRegex) -> (r: usize)
    requires
        byte_source(*re) is Some,
    ensures
        r == byte_captures_len(byte_source(*re)->0),
        r > 0,
{
    re.captures_len()
}

/// `regex::bytes::Regex::captures_iter` starts an iteration over the matches in a haystack.
#[verifier::external_body]
pub(crate) fn captures_iter<'r, 'h>(re: &'r ByteRegex, haystack: &'h [u8]) -> (r:
    ByteCaptureMatches<'r, 'h>)
    requires
        byte_source(*re) is Some,
    ensures
        byte_progress(r) == Some(
            ByteProgress { pattern: byte_source(*re)->0, haystack: haystack@, calls: 0 },
        ),
{
    re.captures_iter(haystack)
}

/// `regex::bytes::CaptureMatches::next` returns the capture groups of the next match. The first
/// ones are those that `captures` returns. Matches do not overlap: each one starts where the one
/// before ends, or behind that. Once there is none, there is none again.
#[verifier::external_body]
pub(crate) fn next(it: &mut ByteCaptureMatches<'_, '_>) -> (r: Option<
    Vec<Option<(usize, usize)>>,
>)
    requires
        byte_progress(*old(it)) is Some,
    ensures
        ({
            let p = byte_progress(*old(it))->0;
            byte_progress(*final(it)) == Some(ByteProgress { calls: p.calls + 1, ..p })
        }),
        ({
            let p = byte_progress(*old(it))->0;
            match r {
                Some(groups) => {
                    &&& byte_nth(p.pattern, p.haystack, p.calls) == Some(groups@)
                    &&& are_groups(groups@, p.haystack.len())
                    &&& groups@.len() == byte_captures_len(p.pattern)
                    &&& p.calls == 0 ==> byte_captures(p.pattern, p.haystack) == Some(groups@)
                    &&& p.calls > 0 ==> (byte_nth(
                        p.pattern,
                        p.haystack,
                        (p.calls - 1) as nat,
                    ) matches Some(earlier) && comes_behind(groups@, earlier))
                },
                None => {
                    &&& byte_nth(p.pattern, p.haystack, p.calls) is None
                    &&& p.calls == 0 ==> byte_captures(p.pattern, p.haystack) is None
                },
            }
        }),
{
    let caps = it.next()?;
    Some(caps.iter().map(|m| m.map(|m| (m.start(), m.end()))).collect())
}

} // verus!
