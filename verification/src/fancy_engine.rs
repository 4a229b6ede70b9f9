//! The fancy engine: what the library relies on of the regular expressions of the `fancy-regex`
//! crate.
use fancy_regex::{
    CaptureMatches as FancyCaptureMatches, Captures as FancyGroups, Error as FancyError,
    Regex as FancyRegex,
};
use vstd::prelude::*;
use vstd::utf8::*;

use crate::byte_engine;
use crate::pattern;

verus! {

/// A regular expression on text, with back-references and look-around.
#[verifier::external_type_specification]
#[verifier::external_body]
pub struct ExFancyRegex(FancyRegex);

/// The capture groups of a match, which an iteration over them hands out.
#[verifier::external_type_specification]
#[verifier::external_body]
pub struct ExFancyCaptures<'t>(FancyGroups<'t>);

/// Why a pattern was rejected, or a search given up, which an iteration hands out, too.
#[verifier::external_type_specification]
#[verifier::external_body]
pub struct ExFancyError(FancyError);

/// The capture groups of the successive matches in a text.
#[verifier::external_type_specification]
#[verifier::external_body]
pub struct ExFancyCaptureMatches<'r, 't>(FancyCaptureMatches<'r, 't>);

/// The pattern that a regular expression was made of, if it was made with the default options.
pub uninterp spec fn fancy_source(re: FancyRegex) -> Option<Seq<char>>;

/// What the error of `fancy_regex::Regex::new` displays, or `None` if it makes a regular expression
/// of the pattern.
pub uninterp spec fn fancy_rejection(pattern: Seq<char>) -> Option<Seq<char>>;

/// Where the first match of the pattern in the text starts and ends, in bytes, or what the error
/// displays if the search is given up.
pub uninterp spec fn fancy_find(pattern: Seq<char>, text: Seq<char>) -> Result<
    Option<(usize, usize)>,
    Seq<char>,
>;

/// Where the capture groups of the first match of the pattern in the text start and end, in bytes,
/// with `None` for a group that did not take part, or what the error displays.
pub uninterp spec fn fancy_captures(pattern: Seq<char>, text: Seq<char>) -> Result<
    Option<Seq<Option<(usize, usize)>>>,
    Seq<char>,
>;

/// The number of capture groups of the pattern, with group 0, which is the whole match.
pub uninterp spec fn fancy_captures_len(pattern: Seq<char>) -> usize;

/// What the calls for the next match of the pattern in the text give, by the number of the call: the
/// capture groups, what the error displays, or `None` behind the last match.
pub uninterp spec fn fancy_nth(pattern: Seq<char>, text: Seq<char>, n: nat) -> Option<
    Result<Seq<Option<(usize, usize)>>, Seq<char>>,
>;

/// How far an iteration over capture groups has come.
pub struct FancyProgress {
    pub pattern: Seq<char>,
    pub text: Seq<char>,
    /// How often the next match was asked for.
    pub calls: nat,
}

/// How far the iteration has come, if it is one over the matches of a regular expression that was
/// made with the default options.
pub uninterp spec fn fancy_progress(it: FancyCaptureMatches<'_, '_>) -> Option<FancyProgress>;

/// Whether a match lies in the text and has the text that stands there.
pub open spec fn is_piece(found: (usize, usize, &str), text: Seq<char>) -> bool {
    &&& byte_engine::is_span((found.0, found.1), encode_utf8(text).len())
    &&& encode_utf8(found.2@) == encode_utf8(text).subrange(found.0 as int, found.1 as int)
}

/// Where the groups start and end.
pub open spec fn spans(groups: Seq<Option<(usize, usize, &str)>>) -> Seq<Option<(usize, usize)>> {
    groups.map_values(
        |group: Option<(usize, usize, &str)>|
            match group {
                Some(found) => Some((found.0, found.1)),
                None => None,
            },
    )
}

/// Whether these are the capture groups of a match in the text: group 0 took part, and each group
/// that did is a piece of the text.
pub open spec fn are_pieces(groups: Seq<Option<(usize, usize, &str)>>, text: Seq<char>) -> bool {
    &&& groups.len() > 0
    &&& groups[0] is Some
    &&& forall|i: int|
        0 <= i < groups.len() ==> (#[trigger] groups[i] matches Some(found) ==> is_piece(found, text))
}

/// `fancy_regex::Regex::new` makes a regular expression of a pattern, or fails. Which patterns it
/// rejects, and how its error reads, is named, not stated. It computes how long the pattern is with
/// its repetitions written out, which must not overflow, and keeps a set of the groups that are
/// referred to, which must not be too large.
#[verifier::external_body]
pub(crate) fn new(pattern: &str) -> (r: Result<FancyRegex, String>)
    requires
        !pattern::repeats_too_often(pattern@),
        !pattern::refers_too_far(pattern@),
    ensures
        match r {
            Ok(re) => fancy_rejection(pattern@) is None && fancy_source(re) == Some(pattern@),
            Err(message) => fancy_rejection(pattern@) == Some(message@),
        },
{
    match FancyRegex::new(pattern) {
        Ok(re) => Ok(re),
        Err(e) => Err(e.to_string()),
    }
}

/// `fancy_regex::Regex::clone` gives the same regular expression.
#[verifier::external_body]
pub(crate) fn clone(re: &FancyRegex) -> (r: FancyRegex)
    ensures
        fancy_source(r) == fancy_source(*re),
{
    re.clone()
}

/// `fancy_regex::Regex::is_match` tells whether there is a match, the one that `find` returns, and
/// fails where `find` does. A search, here and below, takes the text of a group from where it started
/// last to where it ended last, so that a repeated group which refers to itself could make it panic.
#[verifier::external_body]
pub(crate) fn is_match(re: &FancyRegex, text: &str) -> (r: Result<bool, String>)
    requires
        fancy_source(*re) is Some,
        !pattern::refers_to_itself(fancy_source(*re)->0),
    ensures
        match r {
            Ok(found) => fancy_find(fancy_source(*re)->0, text@) matches Ok(first) && found
                == first is Some,
            Err(message) => fancy_find(fancy_source(*re)->0, text@) matches Err(text) && text
                == message@,
        },
{
    re.is_match(text).map_err(|e| e.to_string())
}

/// `fancy_regex::Regex::find` returns the first match, or fails if it takes too many steps. A match
/// is a piece of the text.
#[verifier::external_body]
pub(crate) fn find<'t>(re: &FancyRegex, text: &'t str) -> (r: Result<
    Option<(usize, usize, &'t str)>,
    String,
>)
    requires
        fancy_source(*re) is Some,
        !pattern::refers_to_itself(fancy_source(*re)->0),
    ensures
        match r {
            Ok(Some(found)) => {
                &&& fancy_find(fancy_source(*re)->0, text@) matches Ok(Some(span)) && span == (
                found.0, found.1)
                &&& is_piece(found, text@)
            },
            Ok(None) => fancy_find(fancy_source(*re)->0, text@) matches Ok(None),
            Err(message) => fancy_find(fancy_source(*re)->0, text@) matches Err(text) && text
                == message@,
        },
{
    match re.find(text) {
        Ok(m) => Ok(m.map(|m| (m.start(), m.end(), m.as_str()))),
        Err(e) => Err(e.to_string()),
    }
}

/// `fancy_regex::Regex::captures` returns the capture groups of the first match: as many as
/// `captures_len` tells, each a piece of the text, of which group 0 is what `find` returns. It fails
/// where `find` does.
#[verifier::external_body]
pub(crate) fn captures<'t>(re: &FancyRegex, text: &'t str) -> (r: Result<
    Option<Vec<Option<(usize, usize, &'t str)>>>,
    String,
>)
    requires
        fancy_source(*re) is Some,
        !pattern::refers_to_itself(fancy_source(*re)->0),
    ensures
        match r {
            Ok(Some(groups)) => {
                &&& fancy_captures(fancy_source(*re)->0, text@) matches Ok(Some(named)) && named
                    == spans(groups@)
                &&& are_pieces(groups@, text@)
                &&& groups@.len() == fancy_captures_len(fancy_source(*re)->0)
                &&& fancy_find(fancy_source(*re)->0, text@) matches Ok(first) && first == spans(
                    groups@,
                )[0]
            },
            Ok(None) => {
                &&& fancy_captures(fancy_source(*re)->0, text@) matches Ok(None)
                &&& fancy_find(fancy_source(*re)->0, text@) matches Ok(None)
            },
            Err(message) => {
                &&& fancy_captures(fancy_source(*re)->0, text@) matches Err(text) && text == message@
                &&& fancy_find(fancy_source(*re)->0, text@) matches Err(text) && text == message@
            },
        },
{
    match re.captures(text) {
        Ok(Some(caps)) => Ok(
            Some(caps.iter().map(|m| m.map(|m| (m.start(), m.end(), m.as_str()))).collect()),
        ),
        Ok(None) => Ok(None),
        Err(e) => Err(e.to_string()),
    }
}

/// `fancy_regex::Regex::captures_len` returns the number of capture groups. There is always
/// group 0.
#[verifier::external_body]
pub(crate) fn captures_len(re: &FancyRegex) -> (r: usize)
    requires
        fancy_source(*re) is Some,
    ensures
        r == fancy_captures_len(fancy_source(*re)->0),
        r > 0,
{
    re.captures_len()
}

/// `fancy_regex::Regex::captures_iter` starts an iteration over the matches in a text.
#[verifier::external_body]
pub(crate) fn captures_iter<'r, 't>(re: &'r FancyRegex, text: &'t str) -> (r:
    FancyCaptureMatches<'r, 't>)
    requires
        fancy_source(*re) is Some,
        !pattern::refers_to_itself(fancy_source(*re)->0),
    ensures
        fancy_progress(r) == Some(
            FancyProgress { pattern: fancy_source(*re)->0, text: text@, calls: 0 },
        ),
{
    re.captures_iter(text)
}

/// `fancy_regex::CaptureMatches::next` returns the capture groups of the next match, each a piece of
/// the text, or fails if the search takes too many steps. On the first call they are those that
/// `captures` returns. Once there is none, there is none again. Each search starts where the match
/// before has ended, or behind that, and only `\K` in a look-behind can move the start of a match
/// before that place.
#[verifier::external_body]
pub(crate) fn next<'t>(it: &mut FancyCaptureMatches<'_, 't>) -> (r: Option<
    Result<Vec<Option<(usize, usize, &'t str)>>, String>,
>)
    requires
        fancy_progress(*old(it)) is Some,
        !pattern::refers_to_itself(fancy_progress(*old(it))->0.pattern),
    ensures
        ({
            let p = fancy_progress(*old(it))->0;
            fancy_progress(*final(it)) == Some(FancyProgress { calls: p.calls + 1, ..p })
        }),
        ({
            let p = fancy_progress(*old(it))->0;
            match r {
                Some(Ok(groups)) => {
                    &&& fancy_nth(p.pattern, p.text, p.calls) matches Some(Ok(named)) && named
                        == spans(groups@)
                    &&& are_pieces(groups@, p.text)
                    &&& groups@.len() == fancy_captures_len(p.pattern)
                    &&& p.calls == 0 ==> (fancy_captures(p.pattern, p.text) matches Ok(Some(named))
                        && named == spans(groups@))
                    &&& p.calls > 0 ==> fancy_nth(p.pattern, p.text, (p.calls - 1) as nat) is Some
                    &&& p.calls > 0 && !pattern::keeps_behind(p.pattern) ==> (fancy_nth(
                        p.pattern,
                        p.text,
                        (p.calls - 1) as nat,
                    ) matches Some(Ok(earlier)) ==> byte_engine::comes_behind(
                        spans(groups@),
                        earlier,
                    ))
                },
                Some(Err(message)) => {
                    &&& fancy_nth(p.pattern, p.text, p.calls) matches Some(Err(text)) && text
                        == message@
                    &&& p.calls == 0 ==> (fancy_captures(p.pattern, p.text) matches Err(text) && text
                        == message@)
                    &&& p.calls > 0 ==> fancy_nth(p.pattern, p.text, (p.calls - 1) as nat) is Some
                },
                None => {
                    &&& fancy_nth(p.pattern, p.text, p.calls) is None
                    &&& p.calls == 0 ==> (fancy_captures(p.pattern, p.text) matches Ok(None))
                },
            }
        }),
{
    let groups = match it.next()? {
        Ok(caps) => Ok(caps.iter().map(|m| m.map(|m| (m.start(), m.end(), m.as_str()))).collect()),
        Err(e) => Err(e.to_string()),
    };
    Some(groups)
}

} // verus!
