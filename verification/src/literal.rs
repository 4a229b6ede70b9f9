//! Plain string matching.
use vstd::prelude::*;
use vstd::utf8::*;

use crate::text::bytes_to_str;

verus! {

/// The anchor for the beginning of a line: `^`.
pub const BEGIN_ANCHOR: u8 = 0x5e;

/// The anchor for the end of a line: `$`.
pub const END_ANCHOR: u8 = 0x24;

/// Whether the needle occurs in the haystack at `i`.
pub open spec fn occurs_at(haystack: Seq<u8>, needle: Seq<u8>, i: int) -> bool {
    0 <= i && i + needle.len() <= haystack.len() && haystack.subrange(i, i + needle.len()) == needle
}

/// Where the needle occurs first in the haystack, from `from` on.
pub open spec fn first_occurrence(haystack: Seq<u8>, needle: Seq<u8>, from: int) -> Option<int>
    decreases haystack.len() + 1 - from,
{
    if from + needle.len() > haystack.len() {
        None
    } else if occurs_at(haystack, needle, from) {
        Some(from)
    } else {
        first_occurrence(haystack, needle, from + 1)
    }
}

/// Where the needle occurs in the haystack, from `from` on, without overlap.
pub open spec fn occurrences(haystack: Seq<u8>, needle: Seq<u8>, from: int) -> Seq<int>
    decreases haystack.len() + 1 - from,
    when 0 <= from
    via occurrences_decreases
{
    match first_occurrence(haystack, needle, from) {
        None => Seq::empty(),
        Some(i) => seq![i] + occurrences(
            haystack,
            needle,
            i + if needle.len() > 0 {
                needle.len() as int
            } else {
                1
            },
        ),
    }
}

#[via_fn]
proof fn occurrences_decreases(haystack: Seq<u8>, needle: Seq<u8>, from: int) {
    lemma_first_occurrence(haystack, needle, from);
}

/// The first occurrence is an occurrence, and there is none before it.
pub proof fn lemma_first_occurrence(haystack: Seq<u8>, needle: Seq<u8>, from: int)
    requires
        0 <= from,
    ensures
        match first_occurrence(haystack, needle, from) {
            Some(i) => from <= i && occurs_at(haystack, needle, i) && forall|j: int|
                from <= j < i ==> !occurs_at(haystack, needle, j),
            None => forall|j: int| from <= j ==> !occurs_at(haystack, needle, j),
        },
    decreases haystack.len() + 1 - from,
{
    if from + needle.len() <= haystack.len() && !occurs_at(haystack, needle, from) {
        lemma_first_occurrence(haystack, needle, from + 1);
    }
}

/// `memchr::memmem::find` returns the index of the first occurrence of the needle, or `None` if it
/// does not occur.
pub assume_specification[ memchr::memmem::find ](haystack: &[u8], needle: &[u8]) -> (r: Option<
    usize,
>)
    ensures
        match r {
            Some(i) => occurs_at(haystack@, needle@, i as int) && forall|j: int|
                0 <= j < i ==> !occurs_at(haystack@, needle@, j),
            None => forall|j: int| !occurs_at(haystack@, needle@, j),
        },
;

/// `memchr::memmem::find_iter` goes through the occurrences of the needle that do not overlap, each
/// the first from the end of the one before, or from one byte behind its start if the needle is
/// empty.
#[verifier::external_body]
fn find_all(haystack: &[u8], needle: &[u8]) -> (r: Vec<usize>)
    ensures
        r@.map_values(|i: usize| i as int) == occurrences(haystack@, needle@, 0),
{
    memchr::memmem::find_iter(haystack, needle).collect()
}

/// Types of literal string anchored matches.
#[derive(Clone, Copy, Debug, PartialEq, Eq, Structural)]
pub enum AnchoredMatch {
    /// `^...`
    Begin,
    /// `...$`
    End,
    /// `^...$`
    Both,
    /// `...`
    Free,
}

/// A plain string matcher, as a value of specifications.
pub struct LiteralView {
    pub needle: Seq<u8>,
    pub match_type: AnchoredMatch,
}

impl LiteralView {
    /// The matcher for a needle that may have anchors.
    pub open spec fn anchored(needle: Seq<u8>) -> LiteralView {
        let n = needle.len() as int;
        if needle[0] == BEGIN_ANCHOR && needle[n - 1] == END_ANCHOR {
            LiteralView { needle: needle.subrange(1, n - 1), match_type: AnchoredMatch::Both }
        } else if needle[0] == BEGIN_ANCHOR {
            LiteralView { needle: needle.subrange(1, n), match_type: AnchoredMatch::Begin }
        } else if needle[n - 1] == END_ANCHOR {
            LiteralView { needle: needle.subrange(0, n - 1), match_type: AnchoredMatch::End }
        } else {
            LiteralView { needle, match_type: AnchoredMatch::Free }
        }
    }

    /// Where the needle is found in the haystack.
    pub open spec fn find(self, haystack: Seq<u8>) -> Option<int> {
        match self.match_type {
            AnchoredMatch::Both => if haystack == self.needle {
                Some(0)
            } else {
                None
            },
            AnchoredMatch::Begin => if occurs_at(haystack, self.needle, 0) {
                Some(0)
            } else {
                None
            },
            AnchoredMatch::End => if occurs_at(
                haystack,
                self.needle,
                haystack.len() - self.needle.len(),
            ) {
                Some(haystack.len() - self.needle.len())
            } else {
                None
            },
            AnchoredMatch::Free => first_occurrence(haystack, self.needle, 0),
        }
    }

    /// All places where the needle is found in the haystack. A needle with an anchor is found once
    /// at most.
    pub open spec fn find_all(self, haystack: Seq<u8>) -> Seq<int> {
        match self.match_type {
            AnchoredMatch::Free => occurrences(haystack, self.needle, 0),
            _ => match self.find(haystack) {
                Some(i) => seq![i],
                None => Seq::empty(),
            },
        }
    }

    /// Whether a match is the needle at `i`.
    pub open spec fn is_found(self, i: int, found: (usize, usize, &str)) -> bool {
        found.0 == i && found.1 == i + self.needle.len() && encode_utf8(found.2@) == self.needle
    }
}

/// A fast Regex-like matcher for literal strings.
#[derive(Debug)]
pub struct LiteralMatcher {
    needle: Vec<u8>,  // Bytes without any anchors
    match_type: AnchoredMatch,  // Type of anchoring specified
}

impl View for LiteralMatcher {
    type V = LiteralView;

    closed spec fn view(&self) -> LiteralView {
        LiteralView { needle: self.needle@, match_type: self.match_type }
    }
}

impl Clone for LiteralMatcher {
    fn clone(&self) -> (r: Self)
        ensures
            r@ == self@,
    {
        proof {
            use_type_invariant(self);
        }
        LiteralMatcher {
            needle: vstd::slice::slice_to_vec(self.needle.as_slice()),
            match_type: self.match_type,
        }
    }
}

/// Whether two byte strings are the same.
fn same_bytes(a: &[u8], b: &[u8]) -> (r: bool)
    ensures
        r == (a@ == b@),
{
    if a.len() != b.len() {
        return false;
    }
    let mut i: usize = 0;
    while i < a.len()
        invariant
            i <= a@.len(),
            a@.len() == b@.len(),
            forall|j: int| 0 <= j < i ==> a@[j] == b@[j],
        decreases a@.len() - i,
    {
        if a[i] != b[i] {
            return false;
        }
        i += 1;
    }
    assert(a@ =~= b@);
    true
}

/// Text without an ASCII character at its beginning or end is still text.
proof fn lemma_strip_ascii(bytes: Seq<u8>)
    requires
        valid_utf8(bytes),
        bytes.len() > 0,
    ensures
        bytes[0] <= 0x7f ==> valid_utf8(bytes.subrange(1, bytes.len() as int)),
        bytes.last() <= 0x7f ==> valid_utf8(bytes.subrange(0, bytes.len() - 1)),
{
    broadcast use {utf8_byte_ranges_bitwise, is_char_boundary_start_end_of_seq};

    let n = bytes.len() as int;
    if bytes[0] <= 0x7f {
        assert(pop_first_scalar(bytes) =~= bytes.subrange(1, n));
    }
    if bytes.last() <= 0x7f {
        is_char_boundary_iff_not_is_continuation_byte(bytes, n - 1);
        valid_utf8_split(bytes, n - 1);
    }
}

impl LiteralMatcher {
    #[verifier::type_invariant]
    closed spec fn wf(self) -> bool {
        valid_utf8(self.needle@)
    }

    /// Construct a new matcher based on a needle possibly with anchors.
    pub fn new(needle: &str) -> (r: Self)
        requires
            needle@.len() > 0,
        ensures
            r@ == LiteralView::anchored(encode_utf8(needle@)),
    {
        let bytes = needle.as_bytes();
        let n: usize = bytes.len();
        proof {
            encode_utf8_valid_utf8(needle@);
            encode_utf8_first_scalar(needle@);
            lemma_strip_ascii(bytes@);
            if bytes@[0] <= 0x7f && bytes@.len() > 1 && bytes@.last() <= 0x7f {
                let inner = bytes@.subrange(1, bytes@.len() as int);
                lemma_strip_ascii(inner);
                assert(inner.subrange(0, inner.len() - 1) =~= bytes@.subrange(1, bytes@.len() - 1));
            }
        }
        if bytes[0] == BEGIN_ANCHOR && bytes[n - 1] == END_ANCHOR {
            let inner = vstd::slice::slice_subrange(bytes, 1, n - 1);
            LiteralMatcher { match_type: AnchoredMatch::Both, needle: vstd::slice::slice_to_vec(inner) }
        } else if bytes[0] == BEGIN_ANCHOR {
            let inner = vstd::slice::slice_subrange(bytes, 1, n);
            LiteralMatcher { match_type: AnchoredMatch::Begin, needle: vstd::slice::slice_to_vec(inner) }
        } else if bytes[n - 1] == END_ANCHOR {
            let inner = vstd::slice::slice_subrange(bytes, 0, n - 1);
            LiteralMatcher { match_type: AnchoredMatch::End, needle: vstd::slice::slice_to_vec(inner) }
        } else {
            LiteralMatcher { match_type: AnchoredMatch::Free, needle: vstd::slice::slice_to_vec(bytes) }
        }
    }

    /// Returns the start index of a match, if any.
    fn anchored_find(&self, haystack: &[u8]) -> (r: Option<usize>)
        ensures
            match self@.find(haystack@) {
                Some(i) => r matches Some(start) && start == i && occurs_at(
                    haystack@,
                    self@.needle,
                    i,
                ),
                None => r is None,
            },
    {
        let nlen: usize = self.needle.len();
        let hlen: usize = haystack.len();
        let needle = self.needle.as_slice();
        match self.match_type {
            AnchoredMatch::Both => {
                assert(haystack@ =~= haystack@.subrange(0, haystack@.len() as int));
                if hlen == nlen && same_bytes(haystack, needle) {
                    Some(0)
                } else {
                    None
                }
            },
            AnchoredMatch::Begin => {
                if hlen >= nlen && same_bytes(vstd::slice::slice_subrange(haystack, 0, nlen), needle) {
                    Some(0)
                } else {
                    None
                }
            },
            AnchoredMatch::End => {
                if hlen >= nlen && same_bytes(
                    vstd::slice::slice_subrange(haystack, hlen - nlen, hlen),
                    needle,
                ) {
                    Some(hlen - nlen)
                } else {
                    None
                }
            },
            AnchoredMatch::Free => {
                proof {
                    lemma_first_occurrence(haystack@, needle@, 0);
                }
                memchr::memmem::find(haystack, needle)
            },
        }
    }

    /// Return true if the needle occurs in the haystack.
    pub fn is_match(&self, haystack: &[u8]) -> (r: bool)
        ensures
            r == self@.find(haystack@) is Some,
    {
        self.anchored_find(haystack).is_some()
    }

    /// The match at `start`: its position and contents.
    fn found<'t>(&self, haystack: &'t [u8], start: usize) -> (r: Option<(usize, usize, &'t str)>)
        requires
            occurs_at(haystack@, self@.needle, start as int),
        ensures
            r matches Some(found) && self@.is_found(start as int, found),
    {
        proof {
            use_type_invariant(self);
            assert(haystack@.len() == haystack.len());
        }
        let end: usize = start + self.needle.len();
        match bytes_to_str(vstd::slice::slice_subrange(haystack, start, end)) {
            Ok(s) => Some((start, end, s)),
            Err(_) => None,
        }
    }

    /// Return the position and contents of the matched needle.
    pub fn find<'t>(&self, haystack: &'t [u8]) -> (r: Option<(usize, usize, &'t str)>)
        ensures
            match self@.find(haystack@) {
                Some(i) => r matches Some(found) && self@.is_found(i, found),
                None => r is None,
            },
            r matches Some(found) ==> {
                &&& found.0 <= found.1 <= haystack@.len()
                &&& encode_utf8(found.2@) == haystack@.subrange(found.0 as int, found.1 as int)
                &&& encode_utf8(found.2@) == self@.needle
            },
    {
        match self.anchored_find(haystack) {
            Some(start) => self.found(haystack, start),
            None => None,
        }
    }

    /// Return all positions and contents of the matched needle.
    pub fn iter<'t>(&self, haystack: &'t [u8]) -> (r: Vec<(usize, usize, &'t str)>)
        ensures
            r@.len() == self@.find_all(haystack@).len(),
            forall|k: int|
                0 <= k < r@.len() ==> self@.is_found(self@.find_all(haystack@)[k], #[trigger] r@[k]),
    {
        let mut r: Vec<(usize, usize, &'t str)> = Vec::new();
        match self.match_type {
            AnchoredMatch::Both | AnchoredMatch::Begin | AnchoredMatch::End => {
                // At most one match
                if let Some(found) = self.find(haystack) {
                    r.push(found);
                }
            },
            AnchoredMatch::Free => {
                // Multiple potential matches
                let starts = find_all(haystack, self.needle.as_slice());
                let ghost all = occurrences(haystack@, self@.needle, 0);
                let mut k: usize = 0;
                while k < starts.len()
                    invariant
                        k <= starts@.len(),
                        starts@.map_values(|i: usize| i as int) == all,
                        all == occurrences(haystack@, self@.needle, 0),
                        r@.len() == k,
                        forall|j: int| 0 <= j < k ==> self@.is_found(all[j], #[trigger] r@[j]),
                    decreases starts@.len() - k,
                {
                    proof {
                        law_occurrences(haystack@, self@.needle, 0, k as int);
                        assert(starts@.map_values(|i: usize| i as int)[k as int] == starts@[k as int]);
                    }
                    if let Some(found) = self.found(haystack, starts[k]) {
                        r.push(found);
                    }
                    k += 1;
                }
                assert(starts@.map_values(|i: usize| i as int).len() == starts@.len());
            },
        }
        r
    }
}

/// Law: each of the occurrences is one, from `from` on, and they do not overlap.
pub proof fn law_occurrences(haystack: Seq<u8>, needle: Seq<u8>, from: int, k: int)
    requires
        0 <= from,
        0 <= k < occurrences(haystack, needle, from).len(),
    ensures
        from <= occurrences(haystack, needle, from)[k],
        occurs_at(haystack, needle, occurrences(haystack, needle, from)[k]),
        k > 0 ==> occurrences(haystack, needle, from)[k - 1] + needle.len() <= occurrences(
            haystack,
            needle,
            from,
        )[k],
    decreases k,
{
    lemma_first_occurrence(haystack, needle, from);
    let first = first_occurrence(haystack, needle, from)->0;
    let next = first + if needle.len() > 0 {
        needle.len() as int
    } else {
        1
    };
    if k > 0 {
        let rest = occurrences(haystack, needle, next);
        assert(occurrences(haystack, needle, from)[k] == rest[k - 1]);
        law_occurrences(haystack, needle, next, k - 1);
        if k > 1 {
            assert(occurrences(haystack, needle, from)[k - 1] == rest[k - 2]);
        }
    }
}

/// Law: no occurrence is missed: each one overlaps with one of the occurrences, or is it.
pub proof fn law_no_occurrence_is_missed(haystack: Seq<u8>, needle: Seq<u8>, from: int, i: int)
    requires
        0 <= from <= i,
        occurs_at(haystack, needle, i),
    ensures
        exists|k: int|
            0 <= k < occurrences(haystack, needle, from).len() && (#[trigger] occurrences(
                haystack,
                needle,
                from,
            )[k] == i || occurrences(haystack, needle, from)[k] < i < occurrences(
                haystack,
                needle,
                from,
            )[k] + needle.len()),
    decreases i - from,
{
    lemma_first_occurrence(haystack, needle, from);
    let all = occurrences(haystack, needle, from);
    let first = first_occurrence(haystack, needle, from)->0;
    let next = first + if needle.len() > 0 {
        needle.len() as int
    } else {
        1
    };
    assert(all[0] == first);
    if next <= i {
        let rest = occurrences(haystack, needle, next);
        law_no_occurrence_is_missed(haystack, needle, next, i);
        let k = choose|k: int|
            0 <= k < rest.len() && (#[trigger] rest[k] == i || rest[k] < i < rest[k] + needle.len());
        assert(all[k + 1] == rest[k]);
    }
}

/// Law: what is found is the needle, at the place that the anchors ask for.
pub proof fn law_found_is_the_needle(matcher: LiteralView, haystack: Seq<u8>)
    requires
        matcher.find(haystack) is Some,
    ensures
        occurs_at(haystack, matcher.needle, matcher.find(haystack)->0),
        matcher.match_type is Begin || matcher.match_type is Both ==> matcher.find(haystack)->0 == 0,
        matcher.match_type is End || matcher.match_type is Both ==> matcher.find(haystack)->0
            + matcher.needle.len() == haystack.len(),
{
    lemma_first_occurrence(haystack, matcher.needle, 0);
    assert(haystack.subrange(0, haystack.len() as int) =~= haystack);
}

/// Law: all that is found are the needle, and they do not overlap.
pub proof fn law_all_found_are_the_needle(matcher: LiteralView, haystack: Seq<u8>, k: int)
    requires
        0 <= k < matcher.find_all(haystack).len(),
    ensures
        occurs_at(haystack, matcher.needle, matcher.find_all(haystack)[k]),
        k > 0 ==> matcher.find_all(haystack)[k - 1] + matcher.needle.len() <= matcher.find_all(
            haystack,
        )[k],
{
    if matcher.match_type is Free {
        law_occurrences(haystack, matcher.needle, 0, k);
    } else {
        law_found_is_the_needle(matcher, haystack);
    }
}

/// Law: what is found is the first of all that is found, and nothing is found if and only if there
/// is none.
pub proof fn law_first_of_all_is_found(matcher: LiteralView, haystack: Seq<u8>)
    ensures
        matcher.find(haystack) is Some <==> matcher.find_all(haystack).len() > 0,
        matcher.find(haystack) is Some ==> matcher.find(haystack)->0 == matcher.find_all(haystack)[0],
{
}

} // verus!
