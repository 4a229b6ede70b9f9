//! Matches and their capture groups.
use vstd::prelude::*;
use vstd::utf8::*;

use crate::byte_engine;
use crate::error::{ErrorView, ScriptLocation, SedError};
use crate::fancy_engine;
use crate::text::{self, bytes_to_str};

verus! {

/// A match, as a value of specifications.
pub struct MatchView {
    pub start: int,
    pub end: int,
    /// What was matched.
    pub bytes: Seq<u8>,
}

/// The match from `start` to `end` in the haystack.
pub open spec fn piece(haystack: Seq<u8>, start: int, end: int) -> MatchView {
    MatchView { start, end, bytes: haystack.subrange(start, end) }
}

/// The groups that start and end there in the haystack.
pub open spec fn pieces(haystack: Seq<u8>, groups: Seq<Option<(usize, usize)>>) -> Seq<
    Option<MatchView>,
> {
    groups.map_values(
        |group: Option<(usize, usize)>|
            match group {
                Some(span) => Some(piece(haystack, span.0 as int, span.1 as int)),
                None => None,
            },
    )
}

/// Whether the match lies in a line of the given length.
pub open spec fn lies_in(m: MatchView, len: nat) -> bool {
    0 <= m.start <= m.end <= len
}

/// Whether all groups that took part lie in a line of the given length.
pub open spec fn all_lie_in(groups: Seq<Option<MatchView>>, len: nat) -> bool {
    forall|i: int| 0 <= i < groups.len() ==> (#[trigger] groups[i] matches Some(m) ==> lies_in(m, len))
}

/// Result type for capture groups.
#[derive(Debug)]
pub struct Match<'t> {
    start: usize,  // Match start
    end: usize,  // Match end
    text: &'t str,  // Actual match
}

impl<'t> View for Match<'t> {
    type V = MatchView;

    closed spec fn view(&self) -> MatchView {
        MatchView { start: self.start as int, end: self.end as int, bytes: encode_utf8(self.text@) }
    }
}

impl<'t> Clone for Match<'t> {
    fn clone(&self) -> (r: Self)
        ensures
            r@ == self@,
    {
        Match { start: self.start, end: self.end, text: self.text }
    }
}

impl<'t> Match<'t> {
    /// The match from `start` to `end` with the text that stands there.
    pub fn new(start: usize, end: usize, text: &'t str) -> (r: Self)
        ensures
            r@ == (MatchView { start: start as int, end: end as int, bytes: encode_utf8(text@) }),
    {
        Match { start, end, text }
    }

    /// Where the match starts.
    pub fn start(&self) -> (r: usize)
        ensures
            r == self@.start,
    {
        self.start
    }

    /// Where the match ends.
    pub fn end(&self) -> (r: usize)
        ensures
            r == self@.end,
    {
        self.end
    }

    /// What was matched.
    pub fn as_str(&self) -> (r: &'t str)
        ensures
            encode_utf8(r@) == self@.bytes,
    {
        self.text
    }
}

/// A match, none, or an error, as a value of specifications.
pub open spec fn match_result(r: Result<Option<Match<'_>>, SedError>) -> Result<
    Option<MatchView>,
    ErrorView,
> {
    match r {
        Ok(Some(m)) => Ok(Some(m@)),
        Ok(None) => Ok(None),
        Err(e) => Err(e@),
    }
}

/// The match if it is text, or else an error with the code.
pub open spec fn text_or_error(m: MatchView, code: i32) -> Result<Option<MatchView>, ErrorView> {
    if valid_utf8(m.bytes) {
        Ok(Some(m))
    } else {
        Err(ErrorView::Simple { code, message: text::utf8_error_text(m.bytes) })
    }
}

/// Decode the match region only.
fn decode<'t>(haystack: &'t [u8], start: usize, end: usize, code: i32) -> (r: Result<
    Option<Match<'t>>,
    SedError,
>)
    requires
        byte_engine::is_span((start, end), haystack@.len()),
    ensures
        match_result(r) == text_or_error(piece(haystack@, start as int, end as int), code),
{
    match bytes_to_str(vstd::slice::slice_subrange(haystack, start, end)) {
        Ok(text) => Ok(Some(Match { start, end, text })),
        Err(message) => Err(SedError::Simple { code, message }),
    }
}

/// What to return for a match of the byte engine.
pub fn byte_match<'t>(haystack: &'t [u8], found: Option<(usize, usize)>) -> (r: Result<
    Option<Match<'t>>,
    SedError,
>)
    requires
        found matches Some(span) ==> byte_engine::is_span(span, haystack@.len()),
    ensures
        match_result(r) == match found {
            Some(span) => text_or_error(piece(haystack@, span.0 as int, span.1 as int), 2),
            None => Ok(None),
        },
{
    match found {
        Some((start, end)) => decode(haystack, start, end, 2),
        None => Ok(None),
    }
}

/// What to return for a match of the fancy engine.
pub fn fancy_match<'t>(
    loc: &ScriptLocation,
    found: Result<Option<(usize, usize, &'t str)>, String>,
) -> (r: Result<Option<Match<'t>>, SedError>)
    ensures
        match_result(r) == match found {
            Ok(Some(m)) => Ok(
                Some(MatchView { start: m.0 as int, end: m.1 as int, bytes: encode_utf8(m.2@) }),
            ),
            Ok(None) => Ok(None),
            Err(message) => Err(ErrorView::Runtime { location: loc@, message: message@ }),
        },
{
    match found {
        Ok(Some((start, end, text))) => Ok(Some(Match { start, end, text })),
        Ok(None) => Ok(None),
        Err(message) => Err(SedError::Runtime { location: loc.clone(), message }),
    }
}

/// What to return when the fancy engine was asked whether there is a match.
pub fn fancy_found(loc: &ScriptLocation, found: Result<bool, String>) -> (r: Result<bool, SedError>)
    ensures
        match found {
            Ok(b) => r matches Ok(v) && v == b,
            Err(message) => r matches Err(e) && e@ == (ErrorView::Runtime {
                location: loc@,
                message: message@,
            }),
        },
{
    match found {
        Ok(b) => Ok(b),
        Err(message) => Err(SedError::Runtime { location: loc.clone(), message }),
    }
}

/// The capture groups of a match of the byte engine.
pub struct ByteCaptures<'t> {
    haystack: &'t [u8],
    groups: Vec<Option<(usize, usize)>>,
}

impl<'t> View for ByteCaptures<'t> {
    type V = Seq<Option<MatchView>>;

    closed spec fn view(&self) -> Seq<Option<MatchView>> {
        pieces(self.haystack@, self.groups@)
    }
}

impl<'t> ByteCaptures<'t> {
    #[verifier::type_invariant]
    spec fn wf(self) -> bool {
        byte_engine::are_groups(self.groups@, self.haystack@.len())
    }

    /// The groups that start and end there in the haystack.
    pub fn new(haystack: &'t [u8], groups: Vec<Option<(usize, usize)>>) -> (r: Self)
        requires
            byte_engine::are_groups(groups@, haystack@.len()),
        ensures
            r@ == pieces(haystack@, groups@),
    {
        ByteCaptures { haystack, groups }
    }
}

/// The groups of the fancy engine, as values of specifications.
pub open spec fn text_groups(groups: Seq<Option<(usize, usize, &str)>>) -> Seq<Option<MatchView>> {
    groups.map_values(
        |group: Option<(usize, usize, &str)>|
            match group {
                Some(m) => Some(
                    MatchView { start: m.0 as int, end: m.1 as int, bytes: encode_utf8(m.2@) },
                ),
                None => None,
            },
    )
}

/// The capture groups of a match of the fancy engine.
pub struct FancyCaptures<'t> {
    groups: Vec<Option<(usize, usize, &'t str)>>,
}

impl<'t> View for FancyCaptures<'t> {
    type V = Seq<Option<MatchView>>;

    closed spec fn view(&self) -> Seq<Option<MatchView>> {
        text_groups(self.groups@)
    }
}

impl<'t> FancyCaptures<'t> {
    /// The groups with the text that they matched.
    pub fn new(groups: Vec<Option<(usize, usize, &'t str)>>) -> (r: Self)
        ensures
            r@ == text_groups(groups@),
    {
        FancyCaptures { groups }
    }
}

/// The capture groups of a match, by their number. Group 0 is the whole match.
pub enum Captures<'t> {
    Literal(Match<'t>),  // only group 0
    Byte(ByteCaptures<'t>),
    Fancy(FancyCaptures<'t>),
}

impl<'t> View for Captures<'t> {
    type V = Seq<Option<MatchView>>;

    open spec fn view(&self) -> Seq<Option<MatchView>> {
        match *self {
            Captures::Literal(m) => seq![Some(m@)],
            Captures::Byte(caps) => caps@,
            Captures::Fancy(caps) => caps@,
        }
    }
}

impl<'t> Captures<'t> {
    /// Get capture group at index `i`.
    /// Returns Ok(None) if the group didn't match.
    /// Returns Err if UTF-8 conversion fails (in the Byte variant).
    pub fn get(&self, i: usize) -> (r: Result<Option<Match<'t>>, SedError>)
        ensures
            match_result(r) == if i < self@.len() && self@[i as int] is Some {
                text_or_error(self@[i as int]->0, 1)
            } else {
                Ok(None)
            },
            !(self is Byte) ==> r is Ok,
    {
        broadcast use encode_utf8_valid_utf8;

        match self {
            Captures::Literal(m) => {
                proof {
                    assert(valid_utf8(m@.bytes));
                }
                Ok(
                    if i == 0 {
                        Some(m.clone())
                    } else {
                        None
                    },
                )
            },
            Captures::Byte(caps) => {
                proof {
                    use_type_invariant(caps);
                }
                if i >= caps.groups.len() {
                    return Ok(None);
                }
                match caps.groups[i] {
                    Some((start, end)) => decode(caps.haystack, start, end, 1),
                    None => Ok(None),
                }
            },
            Captures::Fancy(caps) => {
                if i >= caps.groups.len() {
                    return Ok(None);
                }
                match caps.groups[i] {
                    Some((start, end, text)) => Ok(Some(Match { start, end, text })),
                    None => Ok(None),
                }
            },
        }
    }

    /// Return the number of capture groups (including group 0).
    pub fn len(&self) -> (r: usize)
        ensures
            r == self@.len(),
    {
        match self {
            Captures::Literal(_) => 1,
            Captures::Byte(caps) => caps.groups.len(),
            Captures::Fancy(caps) => caps.groups.len(),
        }
    }

    /// Return true if there are no captures.
    pub fn is_empty(&self) -> (r: bool)
        ensures
            r == (self@.len() == 0),
    {
        match self {
            Captures::Literal(_) => false,  // A literal match always has group 0
            Captures::Byte(caps) => caps.groups.len() == 0,
            Captures::Fancy(caps) => caps.groups.len() == 0,
        }
    }
}

/// Capture groups, none, or an error, as a value of specifications.
pub open spec fn captures_result(r: Result<Option<Captures<'_>>, SedError>) -> Result<
    Option<Seq<Option<MatchView>>>,
    ErrorView,
> {
    match r {
        Ok(Some(caps)) => Ok(Some(caps@)),
        Ok(None) => Ok(None),
        Err(e) => Err(e@),
    }
}

/// What to return for the capture groups of the fancy engine.
pub fn fancy_captures<'t>(
    loc: &ScriptLocation,
    found: Result<Option<Vec<Option<(usize, usize, &'t str)>>>, String>,
) -> (r: Result<Option<Captures<'t>>, SedError>)
    ensures
        captures_result(r) == match found {
            Ok(Some(groups)) => Ok(Some(text_groups(groups@))),
            Ok(None) => Ok(None),
            Err(message) => Err(ErrorView::Runtime { location: loc@, message: message@ }),
        },
        r matches Ok(Some(caps)) ==> caps is Fancy,
{
    match found {
        Ok(Some(groups)) => Ok(Some(Captures::Fancy(FancyCaptures::new(groups)))),
        Ok(None) => Ok(None),
        Err(message) => Err(SedError::Runtime { location: loc.clone(), message }),
    }
}

/// What comes before the error when the fancy engine fails on the next match.
pub open spec fn retrieval_error() -> Seq<char> {
    "error retrieving RE captures: "@
}

/// What the next call of an iteration returned, as a value of specifications.
pub open spec fn next_result(r: Option<Result<Captures<'_>, SedError>>) -> Option<
    Result<Seq<Option<MatchView>>, ErrorView>,
> {
    match r {
        Some(Ok(caps)) => Some(Ok(caps@)),
        Some(Err(e)) => Some(Err(e@)),
        None => None,
    }
}

/// What to return for the next capture groups of the fancy engine.
pub fn fancy_next<'t>(
    loc: &ScriptLocation,
    found: Option<Result<Vec<Option<(usize, usize, &'t str)>>, String>>,
) -> (r: Option<Result<Captures<'t>, SedError>>)
    ensures
        next_result(r) == match found {
            Some(Ok(groups)) => Some(Ok(text_groups(groups@))),
            Some(Err(message)) => Some(
                Err(ErrorView::Runtime { location: loc@, message: retrieval_error() + message@ }),
            ),
            None => None,
        },
        r matches Some(Ok(caps)) ==> caps is Fancy,
{
    match found {
        Some(Ok(groups)) => Some(Ok(Captures::Fancy(FancyCaptures::new(groups)))),
        Some(Err(error)) => {
            let mut message = "error retrieving RE captures: ".to_owned();
            message.append(error.as_str());
            Some(Err(SedError::Runtime { location: loc.clone(), message }))
        },
        None => None,
    }
}

/// Groups of the fancy engine are pieces of its text.
pub(crate) proof fn lemma_text_groups(groups: Seq<Option<(usize, usize, &str)>>, text: Seq<char>)
    requires
        fancy_engine::are_pieces(groups, text),
    ensures
        text_groups(groups) == pieces(encode_utf8(text), fancy_engine::spans(groups)),
{
    assert(text_groups(groups) =~= pieces(encode_utf8(text), fancy_engine::spans(groups)));
}

} // verus!
