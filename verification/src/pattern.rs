//! What a pattern asks of the engine that runs it.
use vstd::prelude::*;

use crate::syntax::{self, Scanner};
use crate::text::to_chars;

verus! {

/// Whether what stands at `i` is not escaped: it stands at the beginning, after a first character
/// other than a backslash, after two such characters, or after a backslash and what that consumes.
pub open spec fn unescaped_at(p: Seq<char>, i: int) -> bool {
    ||| i == 0
    ||| i == 1 && p[0] != '\\'
    ||| i >= 2 && p[i - 2] != '\\' && p[i - 1] != '\\'
    ||| i >= 2 && p[i - 2] == '\\' && p[i - 1] != '\n'
}

/// The letters that stand for Unicode classes and word boundaries after a backslash.
pub open spec fn is_unicode_class(c: char) -> bool {
    c == 'W' || c == 'w' || c == 'D' || c == 'd' || c == 'S' || c == 's' || c == 'B' || c == 'b' || c
        == 'P' || c == 'p'
}

/// Whether something stands at `i` that the byte engine does not handle as the fancy one does: `.`
/// and a negated class, which match any Unicode character, case insensitivity, a Unicode class, or
/// a back-reference.
pub open spec fn fancy_item_at(p: Seq<char>, i: int) -> bool {
    ||| p[i] == '.'
    ||| p[i] == '[' && i + 1 < p.len() && p[i + 1] == '^'
    ||| p[i] == '(' && i + 2 < p.len() && p[i + 1] == '?' && p[i + 2] == 'i'
    ||| p[i] == '\\' && i + 1 < p.len() && (is_unicode_class(p[i + 1]) || syntax::is_digit(p[i + 1]))
}

/// Whether the character is ASCII and not NUL.
pub open spec fn is_plain_ascii(c: char) -> bool {
    '\x01' <= c <= '\x7f'
}

/// Whether the pattern requires the fancy engine rather than the faster byte engine.
pub open spec fn needs_fancy(p: Seq<char>) -> bool {
    ||| exists|i: int| 0 <= i < p.len() && #[trigger] unescaped_at(p, i) && fancy_item_at(p, i)
    ||| exists|i: int| 0 <= i < p.len() && !is_plain_ascii(#[trigger] p[i])
}

/// The characters that are operators of regular expressions. The anchors `^` and `$` are not among
/// them, as plain matching handles those, too.
pub open spec fn is_magic(c: char) -> bool {
    c == '.' || c == '?' || c == '|' || c == '+' || c == '(' || c == '[' || c == '{' || c == '*'
}

/// Whether something stands at `i` that plain string matching does not handle: an operator, a
/// class, an empty match, or a back-reference.
pub open spec fn regex_item_at(p: Seq<char>, i: int) -> bool {
    ||| is_magic(p[i])
    ||| p[i] == '\\' && i + 1 < p.len() && (is_unicode_class(p[i + 1]) || p[i + 1] == 'A' || p[i + 1]
        == 'z' || syntax::is_digit(p[i + 1]))
}

/// Whether the pattern must be handled by a regular expression rather than by plain string matching.
pub open spec fn needs_regex(p: Seq<char>) -> bool {
    exists|i: int| 0 <= i < p.len() && #[trigger] unescaped_at(p, i) && regex_item_at(p, i)
}

/// The pattern without any backslash escapes: a backslash goes, and what it escapes stays.
pub open spec fn unescape(p: Seq<char>) -> Seq<char>
    decreases p.len(),
{
    if p.len() == 0 {
        Seq::empty()
    } else if p[0] != '\\' {
        seq![p[0]] + unescape(p.skip(1))
    } else if p.len() == 1 {
        Seq::empty()
    } else {
        seq![p[1]] + unescape(p.skip(2))
    }
}

/// Whether a back-reference stands inside the group that it names, and that is in a repetition.
pub open spec fn refers_to_itself(p: Seq<char>) -> bool {
    syntax::scanned(p).self_reference
}

/// Whether a back-reference is by a number that no group can have.
pub open spec fn refers_too_far(p: Seq<char>) -> bool {
    syntax::scanned(p).far_reference
}

/// Whether the pattern may be longer than there are numbers for with all its repetitions written out.
pub open spec fn repeats_too_often(p: Seq<char>) -> bool {
    syntax::scanned(p).overflow
}

/// Whether `\K`, which moves the start of a match, stands in a look-behind.
pub open spec fn keeps_behind(p: Seq<char>) -> bool {
    syntax::scanned(p).keeps_behind
}

/// Whether what stands at `i` is not escaped.
fn check_unescaped(p: &Vec<char>, i: usize) -> (r: bool)
    requires
        i < p@.len(),
    ensures
        r == unescaped_at(p@, i as int),
{
    if i == 0 {
        true
    } else if i == 1 {
        p[0] != '\\'
    } else if p[i - 2] == '\\' {
        p[i - 1] != '\n'
    } else {
        p[i - 1] != '\\'
    }
}

/// Whether the letter stands for a Unicode class or a word boundary after a backslash.
fn check_unicode_class(c: char) -> (r: bool)
    ensures
        r == is_unicode_class(c),
{
    c == 'W' || c == 'w' || c == 'D' || c == 'd' || c == 'S' || c == 's' || c == 'B' || c == 'b' || c
        == 'P' || c == 'p'
}

/// Whether the pattern requires the fancy engine rather than the faster byte engine.
pub fn needs_fancy_re(pattern: &str) -> (r: bool)
    ensures
        r == needs_fancy(pattern@),
{
    let p = to_chars(pattern);
    let mut i: usize = 0;
    while i < p.len()
        invariant
            i <= p@.len(),
            p@ == pattern@,
            forall|j: int|
                0 <= j < i ==> !(#[trigger] unescaped_at(pattern@, j) && fancy_item_at(pattern@, j)),
            forall|j: int| 0 <= j < i ==> is_plain_ascii(#[trigger] pattern@[j]),
        decreases p@.len() - i,
    {
        let c = p[i];
        if c < '\x01' || c > '\x7f' {
            assert(!is_plain_ascii(pattern@[i as int]));
            return true;
        }
        if check_unescaped(&p, i) {
            let item = c == '.' || (c == '[' && p.len() - i > 1 && p[i + 1] == '^') || (c == '('
                && p.len() - i > 2 && p[i + 1] == '?' && p[i + 2] == 'i') || (c == '\\' && p.len() - i
                > 1 && (check_unicode_class(p[i + 1]) || ('0' <= p[i + 1] && p[i + 1] <= '9')));
            if item {
                assert(unescaped_at(pattern@, i as int) && fancy_item_at(pattern@, i as int));
                return true;
            }
        }
        i += 1;
    }
    false
}

/// Whether the pattern must be handled by a regular expression rather than by plain string matching.
pub fn needs_re(pattern: &str) -> (r: bool)
    ensures
        r == needs_regex(pattern@),
{
    let p = to_chars(pattern);
    let mut i: usize = 0;
    while i < p.len()
        invariant
            i <= p@.len(),
            p@ == pattern@,
            forall|j: int|
                0 <= j < i ==> !(#[trigger] unescaped_at(pattern@, j) && regex_item_at(pattern@, j)),
        decreases p@.len() - i,
    {
        let c = p[i];
        if check_unescaped(&p, i) {
            let magic = c == '.' || c == '?' || c == '|' || c == '+' || c == '(' || c == '[' || c == '{'
                || c == '*';
            let item = magic || (c == '\\' && p.len() - i > 1 && (check_unicode_class(p[i + 1]) || p[i
                + 1] == 'A' || p[i + 1] == 'z' || ('0' <= p[i + 1] && p[i + 1] <= '9')));
            if item {
                assert(unescaped_at(pattern@, i as int) && regex_item_at(pattern@, i as int));
                return true;
            }
        }
        i += 1;
    }
    false
}

/// Whether a back-reference stands inside the group that it names, and that is in a repetition, as in
/// `(a|b\1)+`.
pub fn has_self_reference(pattern: &str) -> (r: bool)
    ensures
        r == refers_to_itself(pattern@),
{
    Scanner::scan(pattern).self_reference()
}

/// Whether a back-reference is by a number that no group can have, as in `\k<5000000000>`.
pub fn has_far_reference(pattern: &str) -> (r: bool)
    ensures
        r == refers_too_far(pattern@),
{
    Scanner::scan(pattern).far_reference()
}

/// Whether the pattern may be longer than there are numbers for with all its repetitions written out.
pub fn has_too_many_repeats(pattern: &str) -> (r: bool)
    ensures
        r == repeats_too_often(pattern@),
{
    Scanner::scan(pattern).overflow()
}

/// Return the passed pattern without any backslash escapes.
pub fn remove_escapes(pattern: &str) -> (r: String)
    ensures
        r@ == unescape(pattern@),
{
    let p = to_chars(pattern);
    let mut result = String::new();
    let mut i: usize = 0;
    assert(pattern@.skip(0) =~= pattern@);
    while i < p.len()
        invariant
            i <= p@.len(),
            p@ == pattern@,
            result@ + unescape(pattern@.skip(i as int)) == unescape(pattern@),
        decreases p@.len() - i,
    {
        let ghost rest = pattern@.skip(i as int);
        let ghost before = result@;
        if p[i] != '\\' {
            result.push(p[i]);
            assert(rest.skip(1) =~= pattern@.skip(i + 1));
            assert(result@ + unescape(rest.skip(1)) =~= before + unescape(rest));
            i += 1;
        } else if i + 1 < p.len() {
            // A backslash, and what it escapes
            result.push(p[i + 1]);
            assert(rest.skip(2) =~= pattern@.skip(i + 2));
            assert(result@ + unescape(rest.skip(2)) =~= before + unescape(rest));
            i += 2;
        } else {
            assert(pattern@.skip(i + 1) =~= Seq::empty());
            i += 1;
        }
    }
    assert(pattern@.skip(i as int) =~= Seq::empty());
    assert(result@ + Seq::<char>::empty() =~= result@);
    result
}

/// The text as a pattern: a backslash before each of its characters.
pub open spec fn escape(text: Seq<char>) -> Seq<char>
    decreases text.len(),
{
    if text.len() == 0 {
        Seq::empty()
    } else {
        seq!['\\', text[0]] + escape(text.skip(1))
    }
}

/// Law: removing the escapes gives back the text that was escaped.
pub proof fn law_unescape_undoes_escape(text: Seq<char>)
    ensures
        unescape(escape(text)) == text,
    decreases text.len(),
{
    if text.len() > 0 {
        law_unescape_undoes_escape(text.skip(1));
        assert(escape(text).skip(2) =~= escape(text.skip(1)));
        assert(text =~= seq![text[0]] + text.skip(1));
    }
}

/// Law: a pattern without a backslash is left as it is.
pub proof fn law_nothing_to_unescape(p: Seq<char>)
    requires
        !p.contains('\\'),
    ensures
        unescape(p) == p,
    decreases p.len(),
{
    if p.len() > 0 {
        assert(p.contains(p[0]));
        assert forall|i: int| 0 <= i < p.skip(1).len() implies p.skip(1)[i] != '\\' by {
            assert(p.contains(p[i + 1]));
        }
        law_nothing_to_unescape(p.skip(1));
        assert(p =~= seq![p[0]] + p.skip(1));
    }
}

/// Law: only the empty pattern and a lone backslash leave nothing.
pub proof fn law_unescape_leaves_something(p: Seq<char>)
    ensures
        unescape(p).len() == 0 <==> p.len() == 0 || p == seq!['\\'],
{
    if p.len() == 1 {
        assert(p =~= seq![p[0]]);
    }
}

/// Law: a pattern for which plain string matching suffices holds nothing but ASCII, and each operator
/// in it stands right after a backslash, or after a backslash and a newline.
pub proof fn law_plain_patterns(p: Seq<char>, i: int)
    requires
        !needs_fancy(p),
        !needs_regex(p),
        0 <= i < p.len(),
    ensures
        is_plain_ascii(p[i]),
        is_magic(p[i]) ==> i > 0 && (p[i - 1] == '\\' || i > 1 && p[i - 2] == '\\' && p[i - 1]
            == '\n'),
{
    if is_magic(p[i]) {
        assert(regex_item_at(p, i));
        assert(!unescaped_at(p, i));
    }
}

} // verus!
