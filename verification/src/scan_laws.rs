//! What holds of the structure that is seen in a pattern: what is found in it, and what is not.
use vstd::prelude::*;

use crate::pattern;
use crate::syntax::{self, Frame, Scan};

verus! {

/// Whether nothing in the text opens or closes a group, starts an escape or a class, or repeats.
pub open spec fn is_bare(text: Seq<char>) -> bool {
    forall|i: int| 0 <= i < text.len() ==> !"\\[(){*+?"@.contains(#[trigger] text[i])
}

/// Whether these are decimal digits, and at least one.
pub open spec fn are_digits(digits: Seq<char>) -> bool {
    digits.len() > 0 && forall|i: int|
        0 <= i < digits.len() ==> 0x30 <= (#[trigger] digits[i]) as u32 <= 0x39
}

/// Law: digits stand for a number in the decimal system.
pub proof fn law_numbers_are_decimal(digits: Seq<char>, c: char)
    requires
        0x30 <= c as u32 <= 0x39,
    ensures
        syntax::number(digits, 0, 0) == 0,
        syntax::number(digits.push(c), 0, digits.len() as int + 1) == 10 * syntax::number(
            digits,
            0,
            digits.len() as int,
        ) + (c as u32 - 0x30),
{
    lemma_same_number(digits.push(c), 0, digits, digits.len() as int);
}

/// The same digits stand for the same number wherever they stand.
proof fn lemma_same_number(p: Seq<char>, i: int, digits: Seq<char>, n: int)
    requires
        0 <= i,
        0 <= n <= digits.len(),
        i + n <= p.len(),
        forall|k: int| 0 <= k < n ==> #[trigger] p[i + k] == digits[k],
    ensures
        syntax::number(p, i, i + n) == syntax::number(digits, 0, n),
    decreases n,
{
    if n > 0 {
        lemma_same_number(p, i, digits, n - 1);
        assert(p[i + (n - 1)] == digits[n - 1]);
    }
}

/// Where digits end that something else follows.
proof fn lemma_digits(p: Seq<char>, i: int, end: int)
    requires
        0 <= i <= end < p.len(),
        forall|k: int| i <= k < end ==> syntax::is_digit(#[trigger] p[k]),
        !syntax::is_digit(p[end]),
    ensures
        syntax::digits_end(p, i) == end,
    decreases end - i,
{
    if i < end {
        lemma_digits(p, i + 1, end);
    }
}

/// Flags find nothing, and open at most one group.
proof fn lemma_flags(s: Scan, p: Seq<char>, i: int, negated: bool, restore: bool)
    requires
        0 <= i <= p.len(),
    ensures
        ({
            let r = s.flags(p, i, negated, restore);
            &&& i <= r.pos <= p.len()
            &&& r.self_reference == s.self_reference
            &&& r.far_reference == s.far_reference
            &&& r.keeps_behind == s.keeps_behind
            &&& r.overflow == s.overflow
            &&& r.open == s.open || r.open == s.open.push(
                Frame::opened(None, Some(restore), s.open.last().behind),
            )
        }),
    decreases p.len() + 1 - i,
{
    syntax::lemma_skip_blank(p, s.extended, i);
    let j = syntax::skip_blank(p, s.extended, i);
    if j < p.len() && p[j] != ')' && p[j] != ':' {
        if p[j] == '-' {
            lemma_flags(s, p, j + 1, true, restore);
        } else if p[j] == 'x' {
            lemma_flags(Scan { extended: !negated, ..s }, p, j + 1, negated, restore);
        } else {
            lemma_flags(s, p, j + 1, negated, restore);
        }
    }
}

/// What has been found in a part of the pattern is found in the pattern.
proof fn lemma_found_stays(s: Scan, p: Seq<char>)
    requires
        0 <= s.pos <= p.len(),
    ensures
        s.self_reference ==> s.rest(p).self_reference,
        s.far_reference ==> s.rest(p).far_reference,
        s.keeps_behind ==> s.rest(p).keeps_behind,
        s.overflow ==> s.rest(p).overflow,
    decreases p.len() - s.pos,
{
    if s.pos < p.len() {
        syntax::lemma_step(s, p);
        syntax::lemma_skip_blank(p, s.extended, s.pos);
        let i = syntax::skip_blank(p, s.extended, s.pos);
        if i < p.len() {
            syntax::lemma_skip_blank(p, s.extended, i + 1);
            let j = syntax::skip_blank(p, s.extended, i + 1);
            if j < p.len() {
                lemma_flags(s, p, j + 1, false, s.extended);
            }
        }
        lemma_found_stays(s.step(p), p);
    }
}

/// Whether no back-reference, and no `\K` in a look-behind, has been found.
spec fn is_quiet(s: Scan) -> bool {
    &&& s.open.len() > 0
    &&& !s.self_reference
    &&& !s.far_reference
    &&& !s.keeps_behind
    &&& forall|k: int|
        0 <= k < s.open.len() ==> !(#[trigger] s.open[k]).refers && !s.open[k].last_refers
}

/// Where no back-reference can be written, none is found.
proof fn lemma_quiet(s: Scan, p: Seq<char>)
    requires
        0 <= s.pos <= p.len(),
        is_quiet(s),
        forall|i: int| 0 <= i < p.len() ==> #[trigger] p[i] != '\\',
        forall|i: int| 0 <= i < p.len() - 1 && #[trigger] p[i] == 'P' ==> p[i + 1] != '=',
    ensures
        is_quiet(s.rest(p)),
    decreases p.len() - s.pos,
{
    if s.pos < p.len() {
        syntax::lemma_step(s, p);
        syntax::lemma_skip_blank(p, s.extended, s.pos);
        let i = syntax::skip_blank(p, s.extended, s.pos);
        if i < p.len() {
            syntax::lemma_skip_blank(p, s.extended, i + 1);
            let j = syntax::skip_blank(p, s.extended, i + 1);
            if j < p.len() {
                lemma_flags(s, p, j + 1, false, s.extended);
            }
        }
        assert(is_quiet(s.step(p)));
        lemma_quiet(s.step(p), p);
    }
}

/// Law: a pattern without a backslash, and without a back-reference by `P=`, does not refer to itself
/// or too far, and moves no start of a match. So it is not turned away for that.
pub proof fn law_without_references_nothing_refers(p: Seq<char>)
    requires
        forall|i: int| 0 <= i < p.len() ==> #[trigger] p[i] != '\\',
        forall|i: int| 0 <= i < p.len() - 1 && #[trigger] p[i] == 'P' ==> p[i + 1] != '=',
    ensures
        !pattern::refers_to_itself(p),
        !pattern::refers_too_far(p),
        !pattern::keeps_behind(p),
{
    lemma_quiet(Scan::start(), p);
}

/// How long what the open groups hold is.
spec fn weight(open: Seq<Frame>) -> nat
    decreases open.len(),
{
    if open.len() == 0 {
        0
    } else {
        (open.last().total + open.last().last + weight(open.drop_last())) as nat
    }
}

/// An item adds its length.
proof fn lemma_weight_item(s: Scan, len: int, refers: bool)
    requires
        s.open.len() > 0,
        0 <= len,
        weight(s.open) + len <= usize::MAX,
    ensures
        weight(s.item(len, refers).open) == weight(s.open) + len,
        s.item(len, refers).overflow == s.overflow,
        s.item(len, refers).open.len() == s.open.len(),
{
    let r = s.item(len, refers);
    assert(r.open.drop_last() =~= s.open.drop_last());
}

/// A group that was opened adds nothing.
proof fn lemma_weight_open(open: Seq<Frame>, group: Option<usize>, restore: Option<bool>, behind: bool)
    ensures
        weight(open.push(Frame::opened(group, restore, behind))) == weight(open),
{
    assert(open.push(Frame::opened(group, restore, behind)).drop_last() =~= open);
}

/// A group that is closed weighs as much as an item.
proof fn lemma_weight_close(s: Scan)
    requires
        s.open.len() > 0,
        weight(s.open) <= usize::MAX,
    ensures
        weight(s.close_group().open) == weight(s.open),
        s.close_group().overflow == s.overflow,
        s.close_group().open.len() > 0,
{
    if s.open.len() > 1 {
        let f = s.open.last();
        let outer = Scan {
            open: s.open.drop_last(),
            extended: match f.restore {
                Some(extended) => extended,
                None => s.extended,
            },
            ..s
        };
        lemma_weight_item(outer, f.total + f.last, f.refers || f.last_refers);
    }
}

/// Without a brace the pattern is no longer than it was written.
proof fn lemma_no_longer(s: Scan, p: Seq<char>)
    requires
        0 <= s.pos <= p.len() <= usize::MAX,
        s.open.len() > 0,
        weight(s.open) <= s.pos,
        !s.overflow,
        forall|i: int| 0 <= i < p.len() ==> #[trigger] p[i] != '{',
    ensures
        !s.rest(p).overflow,
    decreases p.len() - s.pos,
{
    if s.pos < p.len() {
        syntax::lemma_step(s, p);
        syntax::lemma_skip_blank(p, s.extended, s.pos);
        let i = syntax::skip_blank(p, s.extended, s.pos);
        let behind = s.open.last().behind;
        lemma_weight_open(s.open, None, None, behind);
        lemma_weight_open(s.open, None, None, true);
        lemma_weight_open(s.open, None, Some(s.extended), behind);
        lemma_weight_open(s.open, Some((s.groups + 1) as usize), None, behind);
        let once = s.open.push(Frame::opened(None, None, behind));
        lemma_weight_open(once, None, None, once.last().behind);
        lemma_weight_close(s);
        if i < p.len() {
            syntax::lemma_skip_blank(p, s.extended, i + 1);
            let j = syntax::skip_blank(p, s.extended, i + 1);
            if j < p.len() {
                lemma_flags(s, p, j + 1, false, s.extended);
            }
            if p[i] == '\\' && i + 1 < p.len() {
                lemma_escape_weight(s, p, i);
            } else if p[i] == '(' {
                lemma_parenthesis_weight(s, p, i);
            } else if p[i] != ')' {
                lemma_weight_item(s, 1, false);
                lemma_weight_item(s.repeated(), 1, false);
            }
        }
        let t = s.step(p);
        assert(!t.overflow && t.open.len() > 0 && weight(t.open) <= t.pos);
        lemma_no_longer(t, p);
    } else {
        lemma_weight_item(s, 0, false);
    }
}

/// An escape adds one.
proof fn lemma_escape_weight(s: Scan, p: Seq<char>, i: int)
    requires
        0 <= i < p.len() - 1,
        s.open.len() > 0,
        weight(s.open) + 1 <= usize::MAX,
    ensures
        weight(s.escape(p, i).open) == weight(s.open) + 1,
        s.escape(p, i).overflow == s.overflow,
        s.escape(p, i).open.len() > 0,
{
    let j = i + 1;
    lemma_weight_item(s, 1, false);
    lemma_weight_item(s, 1, true);
    let far = Scan { far_reference: true, ..s };
    lemma_weight_item(far, 1, false);
    lemma_weight_item(far, 1, true);
    let near = Scan { far_reference: false, ..s };
    lemma_weight_item(near, 1, false);
    lemma_weight_item(near, 1, true);
    let keeps = Scan { keeps_behind: s.keeps_behind || s.open.last().behind, ..s };
    lemma_weight_item(keeps, 1, false);
}

/// A parenthesis adds nothing, or one for a back-reference.
proof fn lemma_parenthesis_weight(s: Scan, p: Seq<char>, i: int)
    requires
        0 <= i < p.len(),
        p[i] == '(',
        s.open.len() > 0,
        weight(s.open) + 1 <= usize::MAX,
    ensures
        weight(s.parenthesis(p, i).open) <= weight(s.open) + 1,
        s.parenthesis(p, i).overflow == s.overflow,
        s.parenthesis(p, i).open.len() > 0,
{
    syntax::lemma_skip_blank(p, s.extended, i + 1);
    let j = syntax::skip_blank(p, s.extended, i + 1);
    let behind = s.open.last().behind;
    lemma_weight_open(s.open, None, None, behind);
    lemma_weight_open(s.open, None, None, true);
    lemma_weight_open(s.open, None, Some(s.extended), behind);
    lemma_weight_open(s.open, Some((s.groups + 1) as usize), None, behind);
    let once = s.open.push(Frame::opened(None, None, behind));
    lemma_weight_open(once, None, None, once.last().behind);
    lemma_weight_item(s, 1, false);
    lemma_weight_item(s, 1, true);
    if j < p.len() {
        lemma_flags(s, p, j + 1, false, s.extended);
    }
}

/// Law: a pattern without a brace repeats nothing too often.
pub proof fn law_without_braces_nothing_is_too_long(p: Seq<char>)
    requires
        p.len() <= usize::MAX,
        forall|i: int| 0 <= i < p.len() ==> #[trigger] p[i] != '{',
    ensures
        !pattern::repeats_too_often(p),
{
    reveal_with_fuel(weight, 2);
    lemma_no_longer(Scan::start(), p);
}

/// Whether the character is an item like any other.
spec fn is_item(c: char) -> bool {
    c != '\\' && c != '[' && c != '(' && c != ')' && c != '{' && c != '*' && c != '+' && c != '?'
}

/// The characters of bare text are items like any other.
proof fn lemma_bare(text: Seq<char>)
    requires
        is_bare(text),
    ensures
        forall|i: int| 0 <= i < text.len() ==> is_item(#[trigger] text[i]),
{
    reveal_strlit("\\[(){*+?");
    let s = "\\[(){*+?"@;
    assert(s[0] == '\\' && s[1] == '[' && s[2] == '(' && s[3] == ')');
    assert(s[4] == '{' && s[5] == '*' && s[6] == '+' && s[7] == '?');
}

/// What is seen of a pattern where nothing but items stands up to `end`.
proof fn lemma_run(s: Scan, p: Seq<char>, end: int) -> (t: Scan)
    requires
        0 <= s.pos <= end <= p.len(),
        !s.extended,
        s.open.len() > 0,
        forall|i: int| s.pos <= i < end ==> is_item(#[trigger] p[i]),
    ensures
        s.rest(p) == t.rest(p),
        t.pos == end,
        !t.extended,
        t.groups == s.groups,
        t.names == s.names,
        t.open.len() == s.open.len(),
        t.open.drop_last() == s.open.drop_last(),
        t.open.last().group == s.open.last().group,
        t.open.last().restore == s.open.last().restore,
        t.open.last().behind == s.open.last().behind,
        t.overflow || t.open.last().total + t.open.last().last >= s.open.last().total
            + s.open.last().last,
        s.overflow ==> t.overflow,
    decreases end - s.pos,
{
    if s.pos < end {
        assert(is_item(p[s.pos]));
        let next = s.step(p);
        assert(next == s.item(1, false).go(s.pos + 1));
        assert(next.open.drop_last() =~= s.open.drop_last());
        lemma_run(next, p, end)
    } else {
        s
    }
}

/// Where a character stands that does not stand before.
proof fn lemma_find_at(p: Seq<char>, i: int, c: char, end: int)
    requires
        0 <= i <= end < p.len(),
        p[end] == c,
        forall|k: int| i <= k < end ==> #[trigger] p[k] != c,
    ensures
        syntax::find(p, i, c) == end,
        syntax::past(p, i, c) == end + 1,
    decreases end - i,
{
    if i < end {
        lemma_find_at(p, i + 1, c, end);
    }
}

/// The rest of a pattern is what stands next, and the rest behind that.
proof fn lemma_next(s: Scan, p: Seq<char>)
    requires
        0 <= s.pos < p.len(),
    ensures
        s.rest(p) == s.step(p).rest(p),
        s.pos < s.step(p).pos <= p.len(),
{
    syntax::lemma_step(s, p);
}

/// The digits are characters that follow each other.
proof fn lemma_digit(c: char)
    ensures
        syntax::is_digit(c) == (0x30 <= c as u32 <= 0x39),
{
}

/// A group in which a back-reference names it is closed and repeated.
proof fn lemma_closed_and_repeated(s: Scan, p: Seq<char>)
    requires
        0 <= s.pos < p.len() - 1,
        !s.extended,
        s.open.len() > 1,
        s.open.last().restore is None,
        s.open.last().last_refers,
        p[s.pos] == ')',
        p[s.pos + 1] == '*' || p[s.pos + 1] == '+' || p[s.pos + 1] == '{',
    ensures
        s.rest(p).self_reference,
{
    let closed = s.step(p);
    assert(closed == s.close_group().go(s.pos + 1));
    assert(closed.open.last().last_refers);
    let repeated = closed.step(p);
    assert(repeated.self_reference);
    lemma_next(s, p);
    lemma_next(closed, p);
    lemma_found_stays(repeated, p);
}

/// Law: a back-reference by number to the group in which it stands is seen if the group is repeated.
pub proof fn law_self_reference_by_number_is_seen(
    before: Seq<char>,
    body: Seq<char>,
    operator: char,
    after: Seq<char>,
)
    requires
        is_bare(before),
        is_bare(body),
        operator == '*' || operator == '+' || operator == '{',
    ensures
        pattern::refers_to_itself(
            before + seq!['('] + body + seq!['\\', '1', ')', operator] + after,
        ),
{
    let p = before + seq!['('] + body + seq!['\\', '1', ')', operator] + after;
    lemma_bare(before);
    lemma_bare(body);
    let a = before.len() as int;
    let b = a + 1 + body.len();
    assert forall|i: int| 0 <= i < a implies is_item(#[trigger] p[i]) by {
        assert(p[i] == before[i]);
    }
    assert forall|i: int| a + 1 <= i < b implies is_item(#[trigger] p[i]) by {
        assert(p[i] == body[i - a - 1]);
    }
    assert(p[a] == '(' && p[b] == '\\' && p[b + 1] == '1' && p[b + 2] == ')' && p[b + 3] == operator);
    let s = lemma_run(Scan::start(), p, a);
    assert(is_item(p[a + 1]) || p[a + 1] == '\\');
    let opened = s.step(p);
    lemma_next(s, p);
    assert(opened == s.open_capture().go(a + 1));
    let t = lemma_run(opened, p, b);
    lemma_next(t, p);
    assert(t.open.last().group == Some(1usize));
    lemma_digits(p, b + 1, b + 2);
    reveal_with_fuel(syntax::number, 2);
    assert(syntax::number(p, b + 1, b + 2) == 1);
    assert(t.open[t.open.len() - 1].group matches Some(g) && g == 1);
    assert(syntax::is_open(t.open, 1));
    let referred = t.step(p);
    assert(referred == t.refer(p, b + 1, b + 2).go(b + 2));
    lemma_closed_and_repeated(referred, p);
}

/// A group refers to itself by its name.
proof fn lemma_names_itself(p: Seq<char>, a: int, n: int, c: int)
    requires
        0 <= a,
        0 < n,
        a + n + 4 <= c,
        a + n + 4 <= usize::MAX,
        c + n + 5 < p.len(),
        forall|i: int| 0 <= i < a ==> is_item(#[trigger] p[i]),
        forall|i: int| a + 4 + n <= i < c ==> is_item(#[trigger] p[i]),
        forall|i: int| a + 3 <= i < a + 3 + n ==> #[trigger] p[i] != '>',
        forall|i: int| c + 3 <= i < c + 3 + n ==> #[trigger] p[i] != '>',
        p[a] == '(' && p[a + 1] == '?' && p[a + 2] == '<',
        p[a + 3] != '=' && p[a + 3] != '!',
        p[a + 3 + n] == '>' && p[c] == '\\' && p[c + 1] == 'k' && p[c + 2] == '<',
        p[c + 3 + n] == '>' && p[c + 4 + n] == ')',
        p[c + 5 + n] == '*' || p[c + 5 + n] == '+' || p[c + 5 + n] == '{',
        p.subrange(a + 3, a + 3 + n) == p.subrange(c + 3, c + 3 + n),
    ensures
        pattern::refers_to_itself(p),
{
    let d = c + 3 + n;
    lemma_find_at(p, a + 3, '>', a + 3 + n);
    lemma_find_at(p, c + 3, '>', d);
    let s = lemma_run(Scan::start(), p, a);
    let opened = s.step(p);
    lemma_next(s, p);
    assert(opened == s.named(p, a + 3));
    let t = lemma_run(opened, p, c);
    assert(t.open.last().group == Some(1usize));
    assert(t.open[t.open.len() - 1].group matches Some(g) && g == 1);
    assert(syntax::is_open(t.open, 1));
    assert(syntax::named_group(p, t.names, c + 3, d) == Some(1int));
    let referred = t.step(p);
    lemma_next(t, p);
    assert(referred.pos == d + 1 && referred.open == t.refer(p, c + 3, d).open);
    lemma_closed_and_repeated(referred, p);
}

/// Law: a back-reference by name to the group in which it stands is seen if the group is repeated.
pub proof fn law_self_reference_by_name_is_seen(
    before: Seq<char>,
    name: Seq<char>,
    body: Seq<char>,
    operator: char,
    after: Seq<char>,
)
    requires
        is_bare(before),
        is_bare(name),
        is_bare(body),
        name.len() > 0,
        name[0] != '=' && name[0] != '!',
        !name.contains('>'),
        before.len() + name.len() + 4 <= usize::MAX,
        operator == '*' || operator == '+' || operator == '{',
    ensures
        pattern::refers_to_itself(
            before + seq!['(', '?', '<'] + name + seq!['>'] + body + seq!['\\', 'k', '<'] + name
                + seq!['>', ')', operator] + after,
        ),
{
    let p = before + seq!['(', '?', '<'] + name + seq!['>'] + body + seq!['\\', 'k', '<'] + name + seq![
        '>',
        ')',
        operator,
    ] + after;
    lemma_bare(before);
    lemma_bare(name);
    lemma_bare(body);
    let a = before.len() as int;
    let n = name.len() as int;
    let b = a + 4 + n;
    let c = b + body.len();
    let d = c + 3 + n;
    assert forall|i: int| 0 <= i < a implies is_item(#[trigger] p[i]) by {
        assert(p[i] == before[i]);
    }
    assert forall|i: int| b <= i < c implies is_item(#[trigger] p[i]) by {
        assert(p[i] == body[i - b]);
    }
    assert forall|i: int| a + 3 <= i < a + 3 + n implies #[trigger] p[i] != '>' by {
        assert(p[i] == name[i - a - 3]);
    }
    assert forall|i: int| c + 3 <= i < d implies #[trigger] p[i] != '>' by {
        assert(p[i] == name[i - c - 3]);
    }
    assert(p[a] == '(' && p[a + 1] == '?' && p[a + 2] == '<' && p[a + 3] == name[0]);
    assert(p[b - 1] == '>' && p[c] == '\\' && p[c + 1] == 'k' && p[c + 2] == '<');
    assert(p[d] == '>' && p[d + 1] == ')' && p[d + 2] == operator);
    assert(p.subrange(a + 3, a + 3 + n) =~= name);
    assert(p.subrange(c + 3, d) =~= name);
    lemma_names_itself(p, a, n, c);
}

/// Law: a back-reference by a number that no group can have is seen.
pub proof fn law_far_reference_is_seen(before: Seq<char>, digits: Seq<char>, after: Seq<char>)
    requires
        is_bare(before),
        are_digits(digits),
        u32::MAX < syntax::number(digits, 0, digits.len() as int) <= isize::MAX,
    ensures
        pattern::refers_too_far(before + seq!['\\', 'k', '<'] + digits + seq!['>'] + after),
{
    let p = before + seq!['\\', 'k', '<'] + digits + seq!['>'] + after;
    lemma_bare(before);
    let a = before.len() as int;
    let d = a + 3 + digits.len();
    assert forall|i: int| 0 <= i < a implies is_item(#[trigger] p[i]) by {
        assert(p[i] == before[i]);
    }
    assert forall|i: int| a + 3 <= i < d implies syntax::is_digit(#[trigger] p[i]) && p[i] != '>' by {
        assert(p[i] == digits[i - a - 3]);
        lemma_digit(digits[i - a - 3]);
    }
    assert forall|k: int| 0 <= k < digits.len() implies #[trigger] p[a + 3 + k] == digits[k] by {}
    assert(p[a] == '\\' && p[a + 1] == 'k' && p[a + 2] == '<' && p[d] == '>');
    lemma_find_at(p, a + 3, '>', d);
    lemma_digits(p, a + 3, d);
    lemma_same_number(p, a + 3, digits, digits.len() as int);
    let s = lemma_run(Scan::start(), p, a);
    let t = s.step(p);
    assert(t.far_reference);
    lemma_next(s, p);
    lemma_found_stays(t, p);
}

/// Law: `\K` in a look-behind is seen.
pub proof fn law_kept_text_behind_is_seen(
    before: Seq<char>,
    sign: char,
    body: Seq<char>,
    after: Seq<char>,
)
    requires
        is_bare(before),
        is_bare(body),
        sign == '=' || sign == '!',
    ensures
        pattern::keeps_behind(before + seq!['(', '?', '<', sign] + body + seq!['\\', 'K'] + after),
{
    let p = before + seq!['(', '?', '<', sign] + body + seq!['\\', 'K'] + after;
    lemma_bare(before);
    lemma_bare(body);
    let a = before.len() as int;
    let b = a + 4 + body.len();
    assert forall|i: int| 0 <= i < a implies is_item(#[trigger] p[i]) by {
        assert(p[i] == before[i]);
    }
    assert forall|i: int| a + 4 <= i < b implies is_item(#[trigger] p[i]) by {
        assert(p[i] == body[i - a - 4]);
    }
    assert(p[a] == '(' && p[a + 1] == '?' && p[a + 2] == '<' && p[a + 3] == sign);
    assert(p[b] == '\\' && p[b + 1] == 'K');
    let s = lemma_run(Scan::start(), p, a);
    let opened = s.step(p);
    lemma_next(s, p);
    assert(opened == s.open_group(None, None, true).go(a + 4));
    let t = lemma_run(opened, p, b);
    let kept = t.step(p);
    assert(kept.keeps_behind);
    lemma_next(t, p);
    lemma_found_stays(kept, p);
}

/// Of a repetition in a repetition the product is counted.
proof fn lemma_repeated_twice(p: Seq<char>, a: int, b: int, d: int, n: nat, m: nat)
    requires
        0 <= a,
        a + 3 < b,
        b + 3 < d < p.len(),
        forall|i: int| 0 <= i < a ==> is_item(#[trigger] p[i]),
        forall|i: int| a + 3 <= i < b ==> syntax::is_digit(#[trigger] p[i]),
        forall|i: int| b + 3 <= i < d ==> syntax::is_digit(#[trigger] p[i]),
        p[a] == '(' && is_item(p[a + 1]) && p[a + 2] == '{',
        p[b] == '}' && p[b + 1] == ')' && p[b + 2] == '{' && p[d] == '}',
        n == syntax::number(p, a + 3, b),
        m == syntax::number(p, b + 3, d),
        n <= usize::MAX,
        m <= usize::MAX,
        n * m > usize::MAX,
    ensures
        pattern::repeats_too_often(p),
{
    lemma_digits(p, a + 3, b);
    lemma_digits(p, b + 3, d);
    let s = lemma_run(Scan::start(), p, a);
    let opened = s.step(p);
    lemma_next(s, p);
    assert(opened == s.open_capture().go(a + 1));
    let one = opened.step(p);
    lemma_next(opened, p);
    assert(one == opened.item(1, false).go(a + 2));
    let len = one.open.last().last;
    assert(len == 1);
    assert(len * n == n) by (nonlinear_arith)
        requires
            len == 1,
    ;
    assert(syntax::is_digit(p[a + 3]) && syntax::is_digit(p[b + 3]));
    assert(syntax::repeat_count(p, false, a + 2) == Some(n));
    let many = one.step(p);
    lemma_next(one, p);
    assert(many == one.repeated().repeat(n).item(1, false).go(a + 3));
    assert(many.overflow || many.open.last().total + many.open.last().last >= n);
    assert forall|i: int| a + 3 <= i < b + 1 implies is_item(#[trigger] p[i]) by {}
    let t = lemma_run(many, p, b + 1);
    let closed = t.step(p);
    lemma_next(t, p);
    assert(closed == t.close_group().go(b + 2));
    assert(closed.overflow || closed.open.last().last >= n);
    assert(syntax::repeat_count(p, false, b + 2) == Some(m));
    let last = closed.open.last().last;
    if last >= n {
        assert(last * m >= n * m) by (nonlinear_arith)
            requires
                last >= n,
                m >= 0,
        ;
        assert(m > 1) by (nonlinear_arith)
            requires
                n * m > usize::MAX,
                n <= usize::MAX,
        ;
    }
    let repeated = closed.step(p);
    lemma_next(closed, p);
    assert(repeated == closed.repeated().repeat(m).item(1, false).go(b + 3));
    lemma_found_stays(repeated, p);
}

/// Law: a repetition in a repetition that is longer than there are numbers for is seen.
pub proof fn law_too_many_repetitions_are_seen(
    before: Seq<char>,
    c: char,
    inner: Seq<char>,
    outer: Seq<char>,
    after: Seq<char>,
)
    requires
        is_bare(before),
        is_bare(seq![c]),
        are_digits(inner),
        are_digits(outer),
        syntax::number(inner, 0, inner.len() as int) <= usize::MAX,
        syntax::number(outer, 0, outer.len() as int) <= usize::MAX,
        syntax::number(inner, 0, inner.len() as int) * syntax::number(outer, 0, outer.len() as int)
            > usize::MAX,
    ensures
        pattern::repeats_too_often(
            before + seq!['(', c, '{'] + inner + seq!['}', ')', '{'] + outer + seq!['}'] + after,
        ),
{
    let p = before + seq!['(', c, '{'] + inner + seq!['}', ')', '{'] + outer + seq!['}'] + after;
    lemma_bare(before);
    lemma_bare(seq![c]);
    assert(is_item(seq![c][0]));
    let a = before.len() as int;
    let b = a + 3 + inner.len();
    let d = b + 3 + outer.len();
    let n = syntax::number(inner, 0, inner.len() as int);
    let m = syntax::number(outer, 0, outer.len() as int);
    assert forall|i: int| 0 <= i < a implies is_item(#[trigger] p[i]) by {
        assert(p[i] == before[i]);
    }
    assert forall|i: int| a + 3 <= i < b implies syntax::is_digit(#[trigger] p[i]) by {
        assert(p[i] == inner[i - a - 3]);
        lemma_digit(inner[i - a - 3]);
    }
    assert forall|i: int| b + 3 <= i < d implies syntax::is_digit(#[trigger] p[i]) by {
        assert(p[i] == outer[i - b - 3]);
        lemma_digit(outer[i - b - 3]);
    }
    assert forall|k: int| 0 <= k < inner.len() implies #[trigger] p[a + 3 + k] == inner[k] by {}
    assert forall|k: int| 0 <= k < outer.len() implies #[trigger] p[b + 3 + k] == outer[k] by {}
    assert(p[a] == '(' && p[a + 1] == c && p[a + 2] == '{');
    assert(p[b] == '}' && p[b + 1] == ')' && p[b + 2] == '{' && p[d] == '}');
    lemma_same_number(p, a + 3, inner, inner.len() as int);
    lemma_same_number(p, b + 3, outer, outer.len() as int);
    lemma_repeated_twice(p, a, b, d, n, m);
}

} // verus!
