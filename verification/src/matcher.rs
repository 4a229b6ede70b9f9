//! Regular expressions, each run by the most efficient engine that can.
use fancy_regex::{CaptureMatches as FancyCaptureMatches, Regex as FancyRegex};
use regex::bytes::{CaptureMatches as ByteCaptureMatches, Regex as ByteRegex};
use vstd::prelude::*;
use vstd::utf8::*;

use crate::byte_engine;
use crate::captures::{self, ByteCaptures, Captures, Match, MatchView};
use crate::chunk::{self, IOChunk};
use crate::error::{ErrorView, LocationView, ScriptLocation, SedError};
use crate::fancy_engine;
use crate::literal::{self, LiteralMatcher, LiteralView};
use crate::pattern;

verus! {

/// An engine with its pattern, as a value of specifications.
pub enum EngineView {
    Literal(LiteralView),
    Byte(Seq<char>),
    Fancy(Seq<char>),
}

impl EngineView {
    /// The most efficient engine for a pattern.
    pub open spec fn of(pattern: Seq<char>) -> EngineView {
        if pattern::needs_fancy(pattern) {
            EngineView::Fancy(pattern)
        } else if pattern::needs_regex(pattern) {
            EngineView::Byte(pattern)
        } else {
            EngineView::Literal(LiteralView::anchored(encode_utf8(pattern::unescape(pattern))))
        }
    }

    /// Why the engine rejects its pattern, if it does.
    pub open spec fn rejection(self) -> Option<Seq<char>> {
        match self {
            EngineView::Literal(_) => None,
            EngineView::Byte(pattern) => byte_engine::byte_rejection(pattern),
            EngineView::Fancy(pattern) => fancy_engine::fancy_rejection(pattern),
        }
    }

    /// The number of capture groups, with group 0.
    pub open spec fn captures_len(self) -> nat {
        match self {
            EngineView::Literal(_) => 1,
            EngineView::Byte(pattern) => byte_engine::byte_captures_len(pattern) as nat,
            EngineView::Fancy(pattern) => fancy_engine::fancy_captures_len(pattern) as nat,
        }
    }

    /// Whether the engine can move the start of a match before the place where it started to search.
    pub open spec fn keeps_behind(self) -> bool {
        self matches EngineView::Fancy(pattern) && pattern::keeps_behind(pattern)
    }

    /// The first match in the haystack, or why the engine gave up.
    pub open spec fn first_match(self, haystack: Seq<u8>) -> Result<Option<MatchView>, Seq<char>> {
        match self {
            EngineView::Literal(matcher) => match matcher.find(haystack) {
                Some(i) => Ok(Some(captures::piece(haystack, i, i + matcher.needle.len()))),
                None => Ok(None),
            },
            EngineView::Byte(pattern) => match byte_engine::byte_find(pattern, haystack) {
                Some(span) => Ok(Some(captures::piece(haystack, span.0 as int, span.1 as int))),
                None => Ok(None),
            },
            EngineView::Fancy(pattern) => match fancy_engine::fancy_find(
                pattern,
                decode_utf8(haystack),
            ) {
                Ok(Some(span)) => Ok(
                    Some(captures::piece(haystack, span.0 as int, span.1 as int)),
                ),
                Ok(None) => Ok(None),
                Err(text) => Err(text),
            },
        }
    }

    /// The capture groups of the first match in the haystack, or why the engine gave up.
    pub open spec fn first_captures(self, haystack: Seq<u8>) -> Result<
        Option<Seq<Option<MatchView>>>,
        Seq<char>,
    > {
        match self {
            EngineView::Literal(matcher) => match matcher.find(haystack) {
                Some(i) => Ok(
                    Some(seq![Some(captures::piece(haystack, i, i + matcher.needle.len()))]),
                ),
                None => Ok(None),
            },
            EngineView::Byte(pattern) => match byte_engine::byte_captures(pattern, haystack) {
                Some(groups) => Ok(Some(captures::pieces(haystack, groups))),
                None => Ok(None),
            },
            EngineView::Fancy(pattern) => match fancy_engine::fancy_captures(
                pattern,
                decode_utf8(haystack),
            ) {
                Ok(Some(groups)) => Ok(Some(captures::pieces(haystack, groups))),
                Ok(None) => Ok(None),
                Err(text) => Err(text),
            },
        }
    }

    /// The capture groups of the matches in the haystack, by the number of the call for the next
    /// one, or why the engine gave up.
    pub open spec fn nth_captures(self, haystack: Seq<u8>, n: nat) -> Option<
        Result<Seq<Option<MatchView>>, Seq<char>>,
    > {
        match self {
            EngineView::Literal(matcher) => {
                let all = matcher.find_all(haystack);
                if n < all.len() {
                    let i = all[n as int];
                    Some(Ok(seq![Some(captures::piece(haystack, i, i + matcher.needle.len()))]))
                } else {
                    None
                }
            },
            EngineView::Byte(pattern) => match byte_engine::byte_nth(pattern, haystack, n) {
                Some(groups) => Some(Ok(captures::pieces(haystack, groups))),
                None => None,
            },
            EngineView::Fancy(pattern) => match fancy_engine::fancy_nth(
                pattern,
                decode_utf8(haystack),
                n,
            ) {
                Some(Ok(groups)) => Some(Ok(captures::pieces(haystack, groups))),
                Some(Err(text)) => Some(Err(text)),
                None => None,
            },
        }
    }
}

/// A regular expression that can be implemented in diverse efficient ways.
#[derive(Debug)]
pub enum RegexEngine {
    Literal(LiteralMatcher),  // Fastest: literal bytes
    Byte(ByteRegex),  // Slower: byte-based RE
    Fancy(FancyRegex),  // Slowest: RE supporting UTF-8 and back-references
}

impl View for RegexEngine {
    type V = EngineView;

    open spec fn view(&self) -> EngineView {
        match *self {
            RegexEngine::Literal(m) => EngineView::Literal(m@),
            RegexEngine::Byte(re) => EngineView::Byte(byte_engine::byte_source(re)->0),
            RegexEngine::Fancy(re) => EngineView::Fancy(fancy_engine::fancy_source(re)->0),
        }
    }
}

impl RegexEngine {
    /// Whether the engine was made of a pattern with the default options, and can search any text.
    pub open spec fn wf(&self) -> bool {
        match *self {
            RegexEngine::Literal(_) => true,
            RegexEngine::Byte(re) => byte_engine::byte_source(re) is Some,
            RegexEngine::Fancy(re) => fancy_engine::fancy_source(re) matches Some(pattern)
                && !pattern::refers_to_itself(pattern),
        }
    }
}

impl Clone for RegexEngine {
    fn clone(&self) -> (r: Self)
        ensures
            r@ == self@,
            r.wf() == self.wf(),
    {
        match self {
            RegexEngine::Literal(m) => RegexEngine::Literal(m.clone()),
            RegexEngine::Byte(re) => RegexEngine::Byte(byte_engine::clone(re)),
            RegexEngine::Fancy(re) => RegexEngine::Fancy(fancy_engine::clone(re)),
        }
    }
}

/// A regular expression and its place in the script.
#[derive(Debug)]
pub struct Regex {
    loc: ScriptLocation,
    engine: RegexEngine,
}

/// A regular expression and its place in the script, as a value of specifications.
pub struct RegexView {
    pub location: LocationView,
    pub engine: EngineView,
}

impl RegexView {
    /// Whether the bytes are none that the engine can search: the fancy one searches text.
    pub open spec fn refuses(self, bytes: Seq<u8>) -> bool {
        self.engine is Fancy && !valid_utf8(bytes)
    }

    /// The error for an engine that gave up.
    pub open spec fn runtime_error(self, message: Seq<char>) -> ErrorView {
        ErrorView::Runtime { location: self.location, message }
    }

    /// Whether there is a match in the bytes.
    pub open spec fn is_match(self, bytes: Seq<u8>) -> Result<bool, ErrorView> {
        if self.refuses(bytes) {
            Err(chunk::utf8_error(bytes))
        } else {
            match self.engine.first_match(bytes) {
                Ok(found) => Ok(found is Some),
                Err(message) => Err(self.runtime_error(message)),
            }
        }
    }

    /// The first match in the bytes. One of the byte engine that is not text is an error.
    pub open spec fn find(self, bytes: Seq<u8>) -> Result<Option<MatchView>, ErrorView> {
        if self.refuses(bytes) {
            Err(chunk::utf8_error(bytes))
        } else {
            match self.engine.first_match(bytes) {
                Ok(Some(m)) => if self.engine is Byte {
                    captures::text_or_error(m, 2)
                } else {
                    Ok(Some(m))
                },
                Ok(None) => Ok(None),
                Err(message) => Err(self.runtime_error(message)),
            }
        }
    }

    /// The capture groups of the first match in the bytes.
    pub open spec fn captures(self, bytes: Seq<u8>) -> Result<
        Option<Seq<Option<MatchView>>>,
        ErrorView,
    > {
        if self.refuses(bytes) {
            Err(chunk::utf8_error(bytes))
        } else {
            match self.engine.first_captures(bytes) {
                Ok(found) => Ok(found),
                Err(message) => Err(self.runtime_error(message)),
            }
        }
    }
}

impl View for Regex {
    type V = RegexView;

    closed spec fn view(&self) -> RegexView {
        RegexView { location: self.loc@, engine: self.engine@ }
    }
}

impl Clone for Regex {
    fn clone(&self) -> (r: Self)
        ensures
            r@ == self@,
    {
        proof {
            use_type_invariant(self);
        }
        Regex { loc: self.loc.clone(), engine: self.engine.clone() }
    }
}

impl Regex {
    #[verifier::type_invariant]
    spec fn wf(self) -> bool {
        self.engine.wf()
    }

    /// Construct the most efficient RE-like matching engine possible. There must be something to match,
    /// and for the fancy engine no repeated group may refer to itself, nor may repetitions be too many to
    /// count, or groups be referred to by numbers that none can have.
    pub fn new(loc: ScriptLocation, pattern: &str) -> (r: Result<Self, SedError>)
        requires
            pattern@.len() > 0,
            pattern@.len() == 1 ==> pattern@[0] != '\\',
            pattern::needs_fancy(pattern@) ==> !pattern::refers_to_itself(pattern@)
                && !pattern::repeats_too_often(pattern@) && !pattern::refers_too_far(pattern@),
        ensures
            match EngineView::of(pattern@).rejection() {
                None => r matches Ok(re) && re@ == (RegexView {
                    location: loc@,
                    engine: EngineView::of(pattern@),
                }),
                Some(message) => r matches Err(e) && e@ == (ErrorView::Pattern { message }),
            },
    {
        let engine = if pattern::needs_fancy_re(pattern) {
            match fancy_engine::new(pattern) {
                Ok(re) => RegexEngine::Fancy(re),
                Err(message) => return Err(SedError::Pattern { message }),
            }
        } else if pattern::needs_re(pattern) {
            match byte_engine::new(pattern) {
                Ok(re) => RegexEngine::Byte(re),
                Err(message) => return Err(SedError::Pattern { message }),
            }
        } else {
            proof {
                pattern::law_unescape_leaves_something(pattern@);
            }
            RegexEngine::Literal(LiteralMatcher::new(pattern::remove_escapes(pattern).as_str()))
        };
        Ok(Regex { loc, engine })
    }

    /// Construct with a default location.
    pub fn new_unlocated(pattern: &str) -> (r: Result<Self, SedError>)
        requires
            pattern@.len() > 0,
            pattern@.len() == 1 ==> pattern@[0] != '\\',
            pattern::needs_fancy(pattern@) ==> !pattern::refers_to_itself(pattern@)
                && !pattern::repeats_too_often(pattern@) && !pattern::refers_too_far(pattern@),
        ensures
            match EngineView::of(pattern@).rejection() {
                None => r matches Ok(re) && re@ == (RegexView {
                    location: LocationView { input_name: Seq::empty(), line_number: 0 },
                    engine: EngineView::of(pattern@),
                }),
                Some(message) => r matches Err(e) && e@ == (ErrorView::Pattern { message }),
            },
    {
        Regex::new(ScriptLocation::default(), pattern)
    }

    /// The engine that was chosen.
    pub fn engine(&self) -> (r: &RegexEngine)
        ensures
            r@ == self@.engine,
            r.wf(),
    {
        proof {
            use_type_invariant(self);
        }
        &self.engine
    }

    /// Check if the regex matches the content of the IOChunk.
    pub fn is_match(&self, chunk: &mut IOChunk) -> (r: Result<bool, SedError>)
        requires
            old(chunk).wf(),
        ensures
            *final(chunk) == *old(chunk),
            match self@.is_match(old(chunk).bytes()) {
                Ok(found) => r == Ok::<bool, SedError>(found),
                Err(error) => r matches Err(e) && e@ == error,
            },
    {
        proof {
            use_type_invariant(self);
        }
        match &self.engine {
            RegexEngine::Literal(m) => Ok(m.is_match(chunk.as_bytes())),
            RegexEngine::Byte(re) => Ok(byte_engine::is_match(re, chunk.as_bytes())),
            RegexEngine::Fancy(re) => {
                let text = match chunk.as_str() {
                    Ok(text) => text,
                    Err(e) => return Err(e),
                };
                captures::fancy_found(&self.loc, fancy_engine::is_match(re, text))
            },
        }
    }

    /// Return an iterator over capture groups.
    pub fn captures_iter<'t>(&'t self, chunk: &'t IOChunk) -> (r: Result<
        CaptureMatches<'t>,
        SedError,
    >)
        requires
            chunk.wf(),
        ensures
            match r {
                Ok(it) => {
                    &&& !self@.refuses(chunk.bytes())
                    &&& it.wf()
                    &&& it@ == (MatchesView {
                        engine: self@.engine,
                        haystack: chunk.bytes(),
                        calls: 0,
                    })
                    &&& self@.engine is Fancy ==> it.location() == self@.location
                },
                Err(e) => {
                    &&& self@.refuses(chunk.bytes())
                    &&& e@ == chunk::utf8_error(chunk.bytes())
                },
            },
    {
        broadcast use encode_utf8_decode_utf8;

        proof {
            use_type_invariant(self);
        }
        match &self.engine {
            RegexEngine::Literal(m) => {
                let haystack = chunk.as_bytes();
                Ok(
                    CaptureMatches::Literal(
                        LiteralMatches {
                            found: m.iter(haystack),
                            next: 0,
                            matcher: Ghost(m@),
                            haystack: Ghost(haystack@),
                            calls: Ghost(0),
                        },
                    ),
                )
            },
            RegexEngine::Byte(re) => {
                let haystack = chunk.as_bytes();
                let found = byte_engine::captures_iter(re, haystack);
                Ok(CaptureMatches::Byte(ByteMatches { found, haystack }))
            },
            RegexEngine::Fancy(re) => {
                let text = match chunk.as_str() {
                    Ok(text) => text,
                    Err(e) => return Err(e),
                };
                let found = fancy_engine::captures_iter(re, text);
                Ok(CaptureMatches::Fancy(FancyMatches { found }, &self.loc))
            },
        }
    }

    /// Return the number of capture groups, including group 0.
    pub fn captures_len(&self) -> (r: usize)
        ensures
            r == self@.engine.captures_len(),
            r > 0,
    {
        proof {
            use_type_invariant(self);
        }
        match &self.engine {
            RegexEngine::Literal(_) => 1,  // Only group 0
            RegexEngine::Byte(re) => byte_engine::captures_len(re),
            RegexEngine::Fancy(re) => fancy_engine::captures_len(re),
        }
    }

    /// Return the elements of the first capture: as many groups as there are, of which group 0 is
    /// the first match. There are none if and only if there is no match.
    pub fn captures<'t>(&self, chunk: &'t IOChunk) -> (r: Result<Option<Captures<'t>>, SedError>)
        requires
            chunk.wf(),
        ensures
            captures::captures_result(r) == self@.captures(chunk.bytes()),
            r matches Ok(Some(caps)) ==> {
                &&& caps@.len() == self@.engine.captures_len()
                &&& caps@.len() > 0
                &&& self@.engine.first_match(chunk.bytes()) == Ok::<Option<MatchView>, Seq<char>>(
                    caps@[0],
                )
                &&& caps@[0] is Some
                &&& captures::all_lie_in(caps@, chunk.bytes().len())
                &&& caps is Literal <==> self@.engine is Literal
                &&& caps is Byte <==> self@.engine is Byte
            },
            r matches Ok(None) ==> self@.engine.first_match(chunk.bytes()) matches Ok(None),
            r matches Err(e) ==> self@.find(chunk.bytes()) == Err::<Option<MatchView>, ErrorView>(e@),
    {
        proof {
            use_type_invariant(self);
        }
        match &self.engine {
            RegexEngine::Literal(m) => {
                let haystack = chunk.as_bytes();
                proof {
                    if m@.find(haystack@) is Some {
                        literal::law_found_is_the_needle(m@, haystack@);
                    }
                }
                match m.find(haystack) {
                    Some((start, end, text)) => Ok(
                        Some(Captures::Literal(Match::new(start, end, text))),
                    ),
                    None => Ok(None),
                }
            },
            RegexEngine::Byte(re) => {
                let bytes = chunk.as_bytes();
                match byte_engine::captures(re, bytes) {
                    Some(groups) => Ok(Some(Captures::Byte(ByteCaptures::new(bytes, groups)))),
                    None => Ok(None),
                }
            },
            RegexEngine::Fancy(re) => {
                let text = match chunk.as_str() {
                    Ok(text) => text,
                    Err(e) => return Err(e),
                };
                let found = fancy_engine::captures(re, text);
                proof {
                    if let Ok(Some(groups)) = &found {
                        captures::lemma_text_groups(groups@, text@);
                    }
                }
                captures::fancy_captures(&self.loc, found)
            },
        }
    }

    /// Return a non-capturing result for a single match.
    pub fn find<'t>(&self, chunk: &'t IOChunk) -> (r: Result<Option<Match<'t>>, SedError>)
        requires
            chunk.wf(),
        ensures
            captures::match_result(r) == self@.find(chunk.bytes()),
            r matches Ok(Some(m)) ==> captures::lies_in(m@, chunk.bytes().len()),
    {
        proof {
            use_type_invariant(self);
        }
        match &self.engine {
            RegexEngine::Literal(m) => {
                let haystack = chunk.as_bytes();
                proof {
                    if m@.find(haystack@) is Some {
                        literal::law_found_is_the_needle(m@, haystack@);
                    }
                }
                match m.find(haystack) {
                    Some((start, end, text)) => Ok(Some(Match::new(start, end, text))),
                    None => Ok(None),
                }
            },
            RegexEngine::Byte(re) => {
                let haystack = chunk.as_bytes();
                captures::byte_match(haystack, byte_engine::find(re, haystack))
            },
            RegexEngine::Fancy(re) => {
                let text = match chunk.as_str() {
                    Ok(text) => text,
                    Err(e) => return Err(e),
                };
                captures::fancy_match(&self.loc, fancy_engine::find(re, text))
            },
        }
    }
}

/// Whether a match comes behind another: it does not start before the other ends.
pub open spec fn is_behind(
    groups: Seq<Option<MatchView>>,
    earlier: Seq<Option<MatchView>>,
) -> bool {
    &&& groups.len() > 0
    &&& earlier.len() > 0
    &&& groups[0] matches Some(m) && earlier[0] matches Some(other) && other.end <= m.start
}

/// Law: there is a match if and only if one is found, or one is there that is not text.
pub proof fn law_match_iff_found(re: RegexView, bytes: Seq<u8>)
    ensures
        match re.is_match(bytes) {
            Ok(false) => re.find(bytes) matches Ok(None),
            Ok(true) => (re.find(bytes) matches Ok(Some(_))) || (re.engine is Byte && re.find(
                bytes,
            ) is Err),
            Err(e) => re.find(bytes) matches Err(other) && other == e,
        },
{
}

/// Law: a pattern that needs neither engine is never rejected.
pub proof fn law_plain_patterns_are_accepted(pattern: Seq<char>)
    requires
        !pattern::needs_fancy(pattern),
        !pattern::needs_regex(pattern),
    ensures
        EngineView::of(pattern).rejection() is None,
{
}

/// The matches of a literal string, and how many of them were returned.
pub struct LiteralMatches<'t> {
    found: Vec<(usize, usize, &'t str)>,
    next: usize,
    matcher: Ghost<LiteralView>,
    haystack: Ghost<Seq<u8>>,
    calls: Ghost<nat>,
}

impl<'t> LiteralMatches<'t> {
    /// Whether these are the matches of the literal string in the haystack.
    pub closed spec fn wf(&self) -> bool {
        let all = self.matcher@.find_all(self.haystack@);
        &&& self.found@.len() == all.len()
        &&& forall|k: int|
            0 <= k < all.len() ==> self.matcher@.is_found(all[k], #[trigger] self.found@[k])
        &&& self.next <= self.found@.len()
        &&& self.next as int == if self.calls@ < self.found@.len() {
            self.calls@ as int
        } else {
            self.found@.len() as int
        }
    }
}

/// The matches of the byte engine.
pub struct ByteMatches<'t> {
    found: ByteCaptureMatches<'t, 't>,
    haystack: &'t [u8],
}

impl<'t> ByteMatches<'t> {
    /// Whether these are matches in the haystack.
    pub closed spec fn wf(&self) -> bool {
        byte_engine::byte_progress(self.found) matches Some(p) && p.haystack == self.haystack@
    }
}

/// The matches of the fancy engine.
pub struct FancyMatches<'t> {
    found: FancyCaptureMatches<'t, 't>,
}

impl<'t> FancyMatches<'t> {
    /// Whether these are matches in a text.
    pub closed spec fn wf(&self) -> bool {
        fancy_engine::fancy_progress(self.found) matches Some(p) && !pattern::refers_to_itself(
            p.pattern,
        )
    }
}

/// The matches of an engine, and how often the next one was asked for, as a value of specifications.
pub struct MatchesView {
    pub engine: EngineView,
    pub haystack: Seq<u8>,
    pub calls: nat,
}

/// The capture groups of the matches in a chunk, one match after the other.
pub enum CaptureMatches<'t> {
    Literal(LiteralMatches<'t>),
    Byte(ByteMatches<'t>),
    Fancy(FancyMatches<'t>, &'t ScriptLocation),
}

impl<'t> View for CaptureMatches<'t> {
    type V = MatchesView;

    closed spec fn view(&self) -> MatchesView {
        match *self {
            CaptureMatches::Literal(m) => MatchesView {
                engine: EngineView::Literal(m.matcher@),
                haystack: m.haystack@,
                calls: m.calls@,
            },
            CaptureMatches::Byte(m) => {
                let p = byte_engine::byte_progress(m.found)->0;
                MatchesView {
                    engine: EngineView::Byte(p.pattern),
                    haystack: p.haystack,
                    calls: p.calls,
                }
            },
            CaptureMatches::Fancy(m, _) => {
                let p = fancy_engine::fancy_progress(m.found)->0;
                MatchesView {
                    engine: EngineView::Fancy(p.pattern),
                    haystack: encode_utf8(p.text),
                    calls: p.calls,
                }
            },
        }
    }
}

impl<'t> CaptureMatches<'t> {
    /// Whether these are the matches of an engine in a haystack.
    pub closed spec fn wf(&self) -> bool {
        match *self {
            CaptureMatches::Literal(m) => m.wf(),
            CaptureMatches::Byte(m) => m.wf(),
            CaptureMatches::Fancy(m, _) => m.wf(),
        }
    }

    /// The place in the script at which an error is reported. Only the fancy engine has any.
    pub closed spec fn location(&self) -> LocationView {
        match *self {
            CaptureMatches::Fancy(_, loc) => loc@,
            _ => LocationView { input_name: Seq::empty(), line_number: 0 },
        }
    }

    /// Return the capture groups of the next match: as many as the engine has. The first ones are
    /// those of the first match. Matches do not overlap, unless `\K` in a look-behind moves the start
    /// of one. Once there is none, there is none again.
    pub fn next(&mut self) -> (r: Option<Result<Captures<'t>, SedError>>)
        requires
            old(self).wf(),
        ensures
            final(self).wf(),
            final(self)@ == (MatchesView { calls: old(self)@.calls + 1, ..old(self)@ }),
            final(self).location() == old(self).location(),
            captures::next_result(r) == match old(self)@.engine.nth_captures(
                old(self)@.haystack,
                old(self)@.calls,
            ) {
                Some(Ok(groups)) => Some(Ok(groups)),
                Some(Err(message)) => Some(
                    Err(
                        ErrorView::Runtime {
                            location: old(self).location(),
                            message: captures::retrieval_error() + message,
                        },
                    ),
                ),
                None => None,
            },
            r matches Some(Ok(caps)) ==> {
                &&& caps@.len() == old(self)@.engine.captures_len()
                &&& captures::all_lie_in(caps@, old(self)@.haystack.len())
                &&& caps is Literal <==> old(self)@.engine is Literal
                &&& caps is Byte <==> old(self)@.engine is Byte
            },
            old(self)@.calls == 0 ==> old(self)@.engine.nth_captures(old(self)@.haystack, 0)
                == match old(self)@.engine.first_captures(old(self)@.haystack) {
                Ok(Some(groups)) => Some(Ok(groups)),
                Ok(None) => None,
                Err(message) => Some(Err(message)),
            },
            old(self)@.calls > 0 && r is Some ==> old(self)@.engine.nth_captures(
                old(self)@.haystack,
                (old(self)@.calls - 1) as nat,
            ) is Some,
            old(self)@.calls > 0 && !old(self)@.engine.keeps_behind() ==> (r matches Some(Ok(caps)) ==> (
            old(self)@.engine.nth_captures(
                old(self)@.haystack,
                (old(self)@.calls - 1) as nat,
            ) matches Some(Ok(earlier)) ==> is_behind(caps@, earlier))),
    {
        broadcast use encode_utf8_decode_utf8;

        match self {
            CaptureMatches::Literal(m) => {
                proof {
                    literal::law_first_of_all_is_found(m.matcher@, m.haystack@);
                    m.calls@ = m.calls@ + 1;
                }
                if m.next < m.found.len() {
                    proof {
                        literal::law_all_found_are_the_needle(m.matcher@, m.haystack@, m.next as int);
                    }
                    let (start, end, text) = m.found[m.next];
                    m.next += 1;
                    Some(Ok(Captures::Literal(Match::new(start, end, text))))
                } else {
                    None
                }
            },
            CaptureMatches::Byte(m) => match byte_engine::next(&mut m.found) {
                Some(groups) => Some(Ok(Captures::Byte(ByteCaptures::new(m.haystack, groups)))),
                None => None,
            },
            CaptureMatches::Fancy(m, loc) => {
                let ghost text = fancy_engine::fancy_progress(m.found)->0.text;
                let found = fancy_engine::next(&mut m.found);
                proof {
                    if let Some(Ok(groups)) = &found {
                        captures::lemma_text_groups(groups@, text);
                    }
                }
                captures::fancy_next(loc, found)
            },
        }
    }
}

} // verus!
