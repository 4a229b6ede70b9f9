//! The structure of a pattern of the fancy engine: its groups, and what they hold.
use vstd::prelude::*;

use crate::text::to_chars;

verus! {

/// Whether the character stands at `i`.
pub open spec fn at(p: Seq<char>, i: int, c: char) -> bool {
    0 <= i < p.len() && p[i] == c
}

/// Where the character occurs first, from `i` on, or the end of the pattern.
pub open spec fn find(p: Seq<char>, i: int, c: char) -> int
    decreases p.len() + 1 - i,
{
    if i >= p.len() {
        p.len() as int
    } else if p[i] == c {
        i
    } else {
        find(p, i + 1, c)
    }
}

/// The place behind the first occurrence of the character, from `i` on, or the end of the pattern.
pub open spec fn past(p: Seq<char>, i: int, c: char) -> int {
    if find(p, i, c) < p.len() {
        find(p, i, c) + 1
    } else {
        p.len() as int
    }
}

/// Where the comment ends whose text goes on at `i`.
pub open spec fn comment_end(p: Seq<char>, i: int) -> int
    decreases p.len() + 1 - i,
{
    if i >= p.len() {
        p.len() as int
    } else if p[i] == ')' {
        i + 1
    } else if p[i] == '\\' {
        comment_end(p, i + 2)
    } else {
        comment_end(p, i + 1)
    }
}

/// Whether a comment starts at `i`.
pub open spec fn comment_at(p: Seq<char>, i: int) -> bool {
    at(p, i, '(') && at(p, i + 1, '?') && at(p, i + 2, '#')
}

/// Whether the character is a blank that an extended pattern may hold anywhere.
pub open spec fn is_blank(c: char) -> bool {
    c == ' ' || c == '\r' || c == '\n' || c == '\t'
}

/// The place behind comments, and in an extended pattern behind blanks and the ends of lines from
/// `#` on.
pub open spec fn skip_blank(p: Seq<char>, extended: bool, i: int) -> int
    decreases p.len() + 1 - i,
{
    if i >= p.len() {
        p.len() as int
    } else if extended && p[i] == '#' {
        proof {
            lemma_find(p, i, '\n');
        }
        skip_blank(p, extended, past(p, i, '\n'))
    } else if extended && is_blank(p[i]) {
        skip_blank(p, extended, i + 1)
    } else if comment_at(p, i) {
        proof {
            lemma_comment_end(p, i + 3);
        }
        skip_blank(p, extended, comment_end(p, i + 3))
    } else {
        i
    }
}

/// Where the escape ends that starts at `i`, if it is no back-reference. A property is one letter or
/// stands in braces, and so may the number of a character.
pub open spec fn escape_end(p: Seq<char>, i: int) -> int {
    let property = at(p, i + 1, 'p') || at(p, i + 1, 'P');
    let code = at(p, i + 1, 'x') || at(p, i + 1, 'u') || at(p, i + 1, 'U');
    if (property || code) && at(p, i + 2, '{') {
        past(p, i + 3, '}')
    } else if property && i + 2 < p.len() {
        i + 3
    } else if i + 1 < p.len() {
        i + 2
    } else {
        p.len() as int
    }
}

/// Where the character class ends that goes on at `i`, inside so many brackets.
pub open spec fn class_rest(p: Seq<char>, i: int, nest: nat) -> int
    decreases p.len() + 1 - i,
{
    if i >= p.len() {
        p.len() as int
    } else if p[i] == '\\' {
        proof {
            lemma_find(p, i + 3, '}');
        }
        class_rest(p, escape_end(p, i), nest)
    } else if p[i] == '[' {
        class_rest(p, i + 1, nest + 1)
    } else if p[i] != ']' {
        class_rest(p, i + 1, nest)
    } else if nest <= 1 {
        i + 1
    } else {
        class_rest(p, i + 1, (nest - 1) as nat)
    }
}

/// Where the character class ends that starts at `i`. A bracket right at its beginning belongs to
/// it.
pub open spec fn class_end(p: Seq<char>, i: int) -> int {
    let j = if at(p, i + 1, '^') {
        i + 2
    } else {
        i + 1
    };
    if at(p, j, ']') {
        class_rest(p, j + 1, 1)
    } else {
        class_rest(p, j, 1)
    }
}

/// The decimal digits.
pub open spec fn is_digit(c: char) -> bool {
    '0' <= c <= '9'
}

/// Where the digits end that start at `i`.
pub open spec fn digits_end(p: Seq<char>, i: int) -> int
    decreases p.len() + 1 - i,
{
    if 0 <= i < p.len() && is_digit(p[i]) {
        digits_end(p, i + 1)
    } else {
        i
    }
}

/// The number that the digits from `i` to `j` stand for.
pub open spec fn number(p: Seq<char>, i: int, j: int) -> nat
    decreases j - i,
{
    if j <= i {
        0
    } else {
        number(p, i, j - 1) * 10 + (p[j - 1] as u32 - '0' as u32) as nat
    }
}

/// How often what stands before `i` is repeated at least, if a repetition is given there.
pub open spec fn repeat_count(p: Seq<char>, extended: bool, i: int) -> Option<nat> {
    let j = skip_blank(p, extended, i + 1);
    let n = number(p, j, digits_end(p, j));
    if at(p, i, '{') && j < digits_end(p, j) && n <= usize::MAX {
        Some(n)
    } else {
        None
    }
}

/// A group that is open.
#[derive(Clone, Copy)]
pub struct Frame {
    /// Its number, if it captures.
    pub group: Option<usize>,
    /// Whether the pattern is extended behind the group, if that depends on the group.
    pub restore: Option<bool>,
    /// Whether it is a look-behind, or stands in one.
    pub behind: bool,
    /// How long what it holds is with all repetitions written out, but for the last item.
    pub total: usize,
    /// How long the last item is with all repetitions written out.
    pub last: usize,
    /// Whether a back-reference in it, but for the last item, stands in the group that it names.
    pub refers: bool,
    /// Whether a back-reference in the last item stands in the group that it names.
    pub last_refers: bool,
}

impl Frame {
    /// A group that holds nothing yet.
    pub open spec fn opened(group: Option<usize>, restore: Option<bool>, behind: bool) -> Frame {
        Frame { group, restore, behind, total: 0, last: 0, refers: false, last_refers: false }
    }
}

/// The name of a group: where it stands, and the number of the group.
#[derive(Clone, Copy)]
pub struct Name {
    pub start: usize,
    pub end: usize,
    pub group: usize,
}

/// What has been seen of a pattern.
pub struct Scan {
    /// How much of it.
    pub pos: int,
    /// Whether it is extended from here on.
    pub extended: bool,
    /// The number of groups that capture.
    pub groups: int,
    /// The names of groups, in order.
    pub names: Seq<Name>,
    /// The pattern, and the groups that are open.
    pub open: Seq<Frame>,
    /// Whether something was repeated in which a back-reference stands in the group that it names.
    pub self_reference: bool,
    /// Whether a back-reference had a number that no group can have.
    pub far_reference: bool,
    /// Whether `\K` stood in a look-behind.
    pub keeps_behind: bool,
    /// Whether the pattern with all repetitions written out was too long.
    pub overflow: bool,
}

/// The number, or the largest one that there is.
pub open spec fn capped(n: int) -> usize {
    if n > usize::MAX {
        usize::MAX
    } else {
        n as usize
    }
}

/// The group of the last of these names that is what stands from `start` to `end`.
pub open spec fn named_group(p: Seq<char>, names: Seq<Name>, start: int, end: int) -> Option<int>
    decreases names.len(),
{
    if names.len() == 0 {
        None
    } else if p.subrange(names.last().start as int, names.last().end as int) == p.subrange(start, end) {
        Some(names.last().group as int)
    } else {
        named_group(p, names.drop_last(), start, end)
    }
}

/// The group that a back-reference by what stands from `start` to `end` names: by its name, by its
/// number, or by how many groups ago it was opened.
pub open spec fn referred_group(
    p: Seq<char>,
    names: Seq<Name>,
    groups: int,
    start: int,
    end: int,
) -> Option<int> {
    if named_group(p, names, start, end) is Some {
        named_group(p, names, start, end)
    } else if start < end && digits_end(p, start) >= end {
        Some(number(p, start, end) as int)
    } else if at(p, start, '-') && start + 1 < end && digits_end(p, start + 1) >= end {
        Some(groups + 1 - number(p, start + 1, end))
    } else {
        None
    }
}

/// Whether what stands from `start` to `end` is no name but a number that no group can have, and yet
/// one that a machine word holds.
pub open spec fn is_far(p: Seq<char>, names: Seq<Name>, start: int, end: int) -> bool {
    &&& named_group(p, names, start, end) is None
    &&& start < end && digits_end(p, start) >= end
    &&& u32::MAX < number(p, start, end) <= isize::MAX
}

/// Whether the group is open.
pub open spec fn is_open(open: Seq<Frame>, group: int) -> bool {
    exists|k: int| 0 <= k < open.len() && (#[trigger] open[k].group matches Some(g) && g == group)
}

impl Scan {
    /// Nothing has been seen.
    pub open spec fn start() -> Scan {
        Scan {
            pos: 0,
            extended: false,
            groups: 0,
            names: Seq::empty(),
            open: seq![Frame::opened(None, None, false)],
            self_reference: false,
            far_reference: false,
            keeps_behind: false,
            overflow: false,
        }
    }

    /// An item of the given length. `refers` tells whether a back-reference in it stands in the group
    /// that it names.
    pub open spec fn item(self, len: int, refers: bool) -> Scan {
        let f = self.open.last();
        Scan {
            open: self.open.drop_last().push(
                Frame {
                    total: capped(f.total + f.last),
                    last: capped(len),
                    refers: f.refers || f.last_refers,
                    last_refers: refers,
                    ..f
                },
            ),
            overflow: self.overflow || f.total + f.last > usize::MAX || len > usize::MAX,
            ..self
        }
    }

    /// The last item may occur more than once.
    pub open spec fn repeated(self) -> Scan {
        Scan { self_reference: self.self_reference || self.open.last().last_refers, ..self }
    }

    /// The last item occurs so often at least.
    pub open spec fn repeat(self, n: nat) -> Scan {
        let f = self.open.last();
        let len = if n > 1 {
            f.last * n
        } else {
            f.last as int
        };
        Scan {
            open: self.open.drop_last().push(Frame { last: capped(len), ..f }),
            overflow: self.overflow || len > usize::MAX,
            ..self
        }
    }

    /// A group is opened.
    pub open spec fn open_group(
        self,
        group: Option<usize>,
        restore: Option<bool>,
        behind: bool,
    ) -> Scan {
        Scan {
            open: self.open.push(
                Frame::opened(group, restore, behind || self.open.last().behind),
            ),
            ..self
        }
    }

    /// A group that captures is opened.
    pub open spec fn open_capture(self) -> Scan {
        let group = self.groups + 1;
        Scan { groups: group, ..self }.open_group(Some(group as usize), None, false)
    }

    /// The innermost group is closed, and is an item of the one around it.
    pub open spec fn close_group(self) -> Scan {
        if self.open.len() <= 1 {
            self
        } else {
            let f = self.open.last();
            let outer = Scan {
                open: self.open.drop_last(),
                extended: match f.restore {
                    Some(extended) => extended,
                    None => self.extended,
                },
                ..self
            };
            outer.item(f.total + f.last, f.refers || f.last_refers)
        }
    }

    /// Whether what stands from `start` to `end` names a group that is open.
    pub open spec fn names_open(self, p: Seq<char>, start: int, end: int) -> bool {
        referred_group(p, self.names, self.groups, start, end) matches Some(group) && is_open(
            self.open,
            group,
        )
    }

    /// A back-reference by what stands from `start` to `end`.
    pub open spec fn refer(self, p: Seq<char>, start: int, end: int) -> Scan {
        self.item(1, self.names_open(p, start, end))
    }

    /// The scan goes on at `i`.
    pub open spec fn go(self, i: int) -> Scan {
        Scan { pos: i, ..self }
    }

    /// The escape at `i`.
    pub open spec fn escape(self, p: Seq<char>, i: int) -> Scan {
        let j = i + 1;
        if j >= p.len() {
            self.item(1, false).go(p.len() as int)
        } else if is_digit(p[j]) {
            self.refer(p, j, digits_end(p, j)).go(digits_end(p, j))
        } else if p[j] == 'k' && j + 1 < p.len() {
            let close = if at(p, j + 1, '\'') {
                '\''
            } else {
                '>'
            };
            Scan {
                far_reference: self.far_reference || is_far(
                    p,
                    self.names,
                    j + 2,
                    find(p, j + 2, close),
                ),
                ..self
            }.refer(p, j + 2, find(p, j + 2, close)).go(past(p, j + 2, close))
        } else if p[j] == 'K' {
            Scan {
                keeps_behind: self.keeps_behind || self.open.last().behind,
                ..self
            }.item(1, false).go(j + 1)
        } else {
            self.item(1, false).go(escape_end(p, i))
        }
    }

    /// The flags that go on at `i`. `negated` tells whether they are turned off, and `restore` what
    /// goes for the pattern behind the group if they are for a group.
    pub open spec fn flags(self, p: Seq<char>, i: int, negated: bool, restore: bool) -> Scan
        decreases p.len() + 1 - i,
    {
        proof {
            lemma_skip_blank(p, self.extended, i);
        }
        let j = skip_blank(p, self.extended, i);
        if j >= p.len() {
            self.go(p.len() as int)
        } else if p[j] == ')' {
            self.go(j + 1)
        } else if p[j] == ':' {
            self.open_group(None, Some(restore), false).go(j + 1)
        } else if p[j] == '-' {
            self.flags(p, j + 1, true, restore)
        } else if p[j] == 'x' {
            Scan { extended: !negated, ..self }.flags(p, j + 1, negated, restore)
        } else {
            self.flags(p, j + 1, negated, restore)
        }
    }

    /// The name of a group that captures, from `i` on.
    pub open spec fn named(self, p: Seq<char>, i: int) -> Scan {
        let name = Name {
            start: i as usize,
            end: find(p, i, '>') as usize,
            group: (self.groups + 1) as usize,
        };
        Scan { names: self.names.push(name), ..self }.open_capture().go(past(p, i, '>'))
    }

    /// The parenthesis at `i`.
    pub open spec fn parenthesis(self, p: Seq<char>, i: int) -> Scan {
        let j = skip_blank(p, self.extended, i + 1);
        if !at(p, j, '?') {
            self.open_capture().go(j)
        } else if at(p, j + 1, '=') || at(p, j + 1, '!') || at(p, j + 1, '>') {
            self.open_group(None, None, false).go(j + 2)
        } else if at(p, j + 1, '<') && (at(p, j + 2, '=') || at(p, j + 2, '!')) {
            self.open_group(None, None, true).go(j + 3)
        } else if at(p, j + 1, '<') {
            self.named(p, j + 2)
        } else if at(p, j + 1, 'P') && at(p, j + 2, '<') {
            self.named(p, j + 3)
        } else if at(p, j + 1, 'P') && at(p, j + 2, '=') {
            self.refer(p, j + 3, find(p, j + 3, ')')).go(past(p, j + 3, ')'))
        } else if at(p, j + 1, '(') {
            // A condition, which is a group in a group
            self.open_group(None, None, false).open_group(None, None, false).go(j + 2)
        } else {
            self.flags(p, j + 1, false, self.extended)
        }
    }

    /// What stands next.
    pub open spec fn step(self, p: Seq<char>) -> Scan {
        let i = skip_blank(p, self.extended, self.pos);
        if i >= p.len() {
            self.go(p.len() as int)
        } else if p[i] == '\\' {
            self.escape(p, i)
        } else if p[i] == '[' {
            self.item(1, false).go(class_end(p, i))
        } else if p[i] == '(' {
            self.parenthesis(p, i)
        } else if p[i] == ')' {
            self.close_group().go(i + 1)
        } else {
            // A brace counts even where it gives a repetition: it may be one that is none
            let s = if p[i] == '*' || p[i] == '+' || p[i] == '{' {
                self.repeated()
            } else {
                self
            };
            match repeat_count(p, s.extended, i) {
                Some(n) => s.repeat(n).item(1, false).go(i + 1),
                None => s.item(1, false).go(i + 1),
            }
        }
    }

    /// The rest of the pattern.
    pub open spec fn rest(self, p: Seq<char>) -> Scan
        decreases p.len() - self.pos,
        when 0 <= self.pos <= p.len()
    {
        if self.pos >= p.len() {
            self.item(0, false)
        } else {
            proof {
                lemma_step(self, p);
            }
            self.step(p).rest(p)
        }
    }
}

/// All of the pattern.
pub open spec fn scanned(p: Seq<char>) -> Scan {
    Scan::start().rest(p)
}

/// The first occurrence lies in the pattern, or is its end.
pub proof fn lemma_find(p: Seq<char>, i: int, c: char)
    ensures
        i <= p.len() ==> i <= find(p, i, c) <= p.len(),
        i < p.len() ==> i < past(p, i, c) <= p.len(),
        i <= p.len() ==> i <= past(p, i, c) <= p.len(),
        i > p.len() ==> find(p, i, c) == p.len() && past(p, i, c) == p.len(),
        find(p, i, c) < p.len() ==> p[find(p, i, c)] == c,
    decreases p.len() + 1 - i,
{
    if i < p.len() && p[i] != c {
        lemma_find(p, i + 1, c);
    }
}

/// A comment ends in the pattern.
pub proof fn lemma_comment_end(p: Seq<char>, i: int)
    ensures
        i <= p.len() ==> i <= comment_end(p, i) <= p.len(),
        i > p.len() ==> comment_end(p, i) == p.len(),
    decreases p.len() + 1 - i,
{
    if i < p.len() && p[i] == '\\' {
        lemma_comment_end(p, i + 2);
    } else if i < p.len() && p[i] != ')' {
        lemma_comment_end(p, i + 1);
    }
}

/// What is skipped lies in the pattern.
pub proof fn lemma_skip_blank(p: Seq<char>, extended: bool, i: int)
    ensures
        i <= p.len() ==> i <= skip_blank(p, extended, i) <= p.len(),
        i > p.len() ==> skip_blank(p, extended, i) == p.len(),
    decreases p.len() + 1 - i,
{
    if i < p.len() {
        if extended && p[i] == '#' {
            lemma_find(p, i, '\n');
            lemma_skip_blank(p, extended, past(p, i, '\n'));
        } else if extended && is_blank(p[i]) {
            lemma_skip_blank(p, extended, i + 1);
        } else if comment_at(p, i) {
            lemma_comment_end(p, i + 3);
            lemma_skip_blank(p, extended, comment_end(p, i + 3));
        }
    }
}

/// A character class ends in the pattern.
proof fn lemma_class_rest(p: Seq<char>, i: int, nest: nat)
    ensures
        i <= p.len() ==> i <= class_rest(p, i, nest) <= p.len(),
        i > p.len() ==> class_rest(p, i, nest) == p.len(),
    decreases p.len() + 1 - i,
{
    if i < p.len() {
        if p[i] == '\\' {
            lemma_find(p, i + 3, '}');
            lemma_class_rest(p, escape_end(p, i), nest);
        } else if p[i] == '[' {
            lemma_class_rest(p, i + 1, nest + 1);
        } else if p[i] != ']' {
            lemma_class_rest(p, i + 1, nest);
        } else if nest > 1 {
            lemma_class_rest(p, i + 1, (nest - 1) as nat);
        }
    }
}

/// Digits end in the pattern.
proof fn lemma_digits_end(p: Seq<char>, i: int)
    requires
        0 <= i <= p.len(),
    ensures
        i <= digits_end(p, i) <= p.len(),
        forall|j: int| i <= j < digits_end(p, i) ==> is_digit(#[trigger] p[j]),
        digits_end(p, i) < p.len() ==> !is_digit(p[digits_end(p, i)]),
    decreases p.len() + 1 - i,
{
    if i < p.len() && is_digit(p[i]) {
        lemma_digits_end(p, i + 1);
    }
}

/// Each step comes forward.
pub proof fn lemma_step(s: Scan, p: Seq<char>)
    requires
        0 <= s.pos < p.len(),
    ensures
        s.pos < s.step(p).pos <= p.len(),
{
    lemma_skip_blank(p, s.extended, s.pos);
    let i = skip_blank(p, s.extended, s.pos);
    if i < p.len() {
        let j = i + 1;
        lemma_find(p, j + 2, '\'');
        lemma_find(p, j + 2, '>');
        lemma_find(p, j + 2, '}');
        lemma_digits_end(p, j);
        lemma_class_rest(p, i + 1, 1);
        lemma_class_rest(p, i + 2, 1);
        lemma_class_rest(p, i + 3, 1);
        lemma_skip_blank(p, s.extended, j);
        let k = skip_blank(p, s.extended, j);
        lemma_find(p, k + 2, '>');
        lemma_find(p, k + 3, '>');
        lemma_find(p, k + 3, ')');
        if k < p.len() {
            lemma_flags(s, p, k + 1, false, s.extended);
        }
    }
}

/// Flags come forward.
proof fn lemma_flags(s: Scan, p: Seq<char>, i: int, negated: bool, restore: bool)
    requires
        0 <= i <= p.len(),
    ensures
        i <= s.flags(p, i, negated, restore).pos <= p.len(),
    decreases p.len() + 1 - i,
{
    lemma_skip_blank(p, s.extended, i);
    let j = skip_blank(p, s.extended, i);
    if j < p.len() && p[j] != ')' && p[j] != ':' {
        if p[j] == '-' {
            lemma_flags(s, p, j + 1, true, restore);
        } else if p[j] == 'x' {
            lemma_flags(Scan { extended: !negated, ..s }, p, j + 1, negated, restore);
        } else {
            lemma_flags(s, p, j + 1, negated, restore);
        }
    }
}

/// Whether the character stands at `i`.
fn check_at(p: &Vec<char>, i: usize, c: char) -> (r: bool)
    ensures
        r == at(p@, i as int, c),
{
    i < p.len() && p[i] == c
}

/// Where the character occurs first, from `i` on, or the end of the pattern.
fn find_char(p: &Vec<char>, i: usize, c: char) -> (r: usize)
    requires
        i <= p@.len(),
    ensures
        r == find(p@, i as int, c),
        i <= r <= p@.len(),
{
    let mut k: usize = i;
    while k < p.len() && p[k] != c
        invariant
            i <= k <= p@.len(),
            find(p@, k as int, c) == find(p@, i as int, c),
        decreases p@.len() - k,
    {
        k += 1;
    }
    k
}

/// The place behind the first occurrence of the character, from `i` on, or the end of the pattern.
fn past_char(p: &Vec<char>, i: usize, c: char) -> (r: usize)
    requires
        i <= p@.len(),
    ensures
        r == past(p@, i as int, c),
        i <= r <= p@.len(),
        i < p@.len() ==> i < r,
{
    proof {
        lemma_find(p@, i as int, c);
    }
    let k: usize = find_char(p, i, c);
    if k < p.len() {
        k + 1
    } else {
        k
    }
}

/// Where the comment ends whose text goes on at `i`.
fn find_comment_end(p: &Vec<char>, i: usize) -> (r: usize)
    requires
        i <= p@.len(),
    ensures
        r == comment_end(p@, i as int),
        i <= r <= p@.len(),
{
    proof {
        lemma_comment_end(p@, i as int);
    }
    let mut k: usize = i;
    while k < p.len()
        invariant
            i <= k <= p@.len(),
            comment_end(p@, k as int) == comment_end(p@, i as int),
            i <= comment_end(p@, i as int) <= p@.len(),
        decreases p@.len() - k,
    {
        if p[k] == ')' {
            return k + 1;
        }
        if p[k] == '\\' {
            k += 1;
            if k == p.len() {
                assert(comment_end(p@, k + 1) == p@.len());
                return k;
            }
        }
        k += 1;
    }
    k
}

/// The place behind what may be skipped.
fn skip(p: &Vec<char>, extended: bool, i: usize) -> (r: usize)
    requires
        i <= p@.len(),
    ensures
        r == skip_blank(p@, extended, i as int),
        i <= r <= p@.len(),
{
    let mut k: usize = i;
    while k < p.len()
        invariant
            i <= k <= p@.len(),
            skip_blank(p@, extended, k as int) == skip_blank(p@, extended, i as int),
        decreases p@.len() - k,
    {
        if extended && p[k] == '#' {
            k = past_char(p, k, '\n');
        } else if extended && (p[k] == ' ' || p[k] == '\r' || p[k] == '\n' || p[k] == '\t') {
            k += 1;
        } else if p[k] == '(' && p.len() - k > 2 && p[k + 1] == '?' && p[k + 2] == '#' {
            assert(comment_at(p@, k as int));
            k = find_comment_end(p, k + 3);
        } else {
            assert(!comment_at(p@, k as int));
            return k;
        }
    }
    k
}

/// Where the escape ends that starts at `i`, if it is no back-reference.
fn find_escape_end(p: &Vec<char>, i: usize) -> (r: usize)
    requires
        i < p@.len(),
    ensures
        r == escape_end(p@, i as int),
        i < r <= p@.len(),
{
    let rest: usize = p.len() - i;
    if rest <= 2 {
        return p.len();
    }
    let property = p[i + 1] == 'p' || p[i + 1] == 'P';
    let code = p[i + 1] == 'x' || p[i + 1] == 'u' || p[i + 1] == 'U';
    if (property || code) && p[i + 2] == '{' {
        past_char(p, i + 3, '}')
    } else if property {
        i + 3
    } else {
        i + 2
    }
}

/// Where the character class ends that starts at `i`.
fn find_class_end(p: &Vec<char>, i: usize) -> (r: usize)
    requires
        i < p@.len(),
    ensures
        r == class_end(p@, i as int),
        i < r <= p@.len(),
{
    let len: usize = p.len();
    let mut k: usize = i + 1;
    if k < len && p[k] == '^' {
        k += 1;
    }
    if k < len && p[k] == ']' {
        k += 1;
    }
    let ghost start = k as int;
    proof {
        lemma_class_rest(p@, start, 1);
    }
    let mut nest: usize = 1;
    while k < p.len()
        invariant
            i < start <= k <= p@.len(),
            1 <= nest <= k,
            class_rest(p@, k as int, nest as nat) == class_rest(p@, start, 1),
            start <= class_rest(p@, start, 1) <= p@.len(),
            class_rest(p@, start, 1) == class_end(p@, i as int),
        decreases p@.len() - k,
    {
        if p[k] == '\\' {
            k = find_escape_end(p, k);
        } else {
            if p[k] == '[' {
                nest += 1;
            } else if p[k] == ']' {
                if nest == 1 {
                    return k + 1;
                }
                nest -= 1;
            }
            k += 1;
        }
    }
    k
}

/// Whether the character is a digit.
fn check_digit(c: char) -> (r: bool)
    ensures
        r == is_digit(c),
{
    '0' <= c && c <= '9'
}

/// Where the digits end that start at `i`.
fn find_digits_end(p: &Vec<char>, i: usize) -> (r: usize)
    requires
        i <= p@.len(),
    ensures
        r == digits_end(p@, i as int),
        i <= r <= p@.len(),
{
    let mut k: usize = i;
    while k < p.len() && check_digit(p[k])
        invariant
            i <= k <= p@.len(),
            digits_end(p@, k as int) == digits_end(p@, i as int),
        decreases p@.len() - k,
    {
        k += 1;
    }
    k
}

/// More digits stand for no smaller number.
proof fn lemma_number(p: Seq<char>, i: int, j: int, k: int)
    requires
        i <= j <= k,
    ensures
        number(p, i, j) <= number(p, i, k),
    decreases k - j,
{
    if j < k {
        lemma_number(p, i, j, k - 1);
    }
}

/// The value of a digit.
fn digit(c: char) -> (r: usize)
    requires
        is_digit(c),
    ensures
        r == (c as u32 - '0' as u32) as nat,
        r < 10,
{
    (c as u32 - '0' as u32) as usize
}

/// The number that the digits from `i` to `j` stand for, if it is not too large.
fn decimal(p: &Vec<char>, i: usize, j: usize) -> (r: Option<usize>)
    requires
        i <= j <= digits_end(p@, i as int),
        i <= p@.len(),
    ensures
        match r {
            Some(n) => n == number(p@, i as int, j as int),
            None => number(p@, i as int, j as int) > usize::MAX,
        },
{
    proof {
        lemma_digits_end(p@, i as int);
    }
    let mut n: usize = 0;
    let mut k: usize = i;
    while k < j
        invariant
            i <= k <= j <= p@.len(),
            n == number(p@, i as int, k as int),
            forall|l: int| i <= l < j ==> is_digit(#[trigger] p@[l]),
        decreases j - k,
    {
        let d: usize = digit(p[k]);
        assert(number(p@, i as int, k + 1) == n * 10 + d);
        proof {
            lemma_number(p@, i as int, k + 1, j as int);
        }
        match n.checked_mul(10) {
            Some(m) => match m.checked_add(d) {
                Some(m) => {
                    n = m;
                },
                None => return None,
            },
            None => return None,
        }
        k += 1;
    }
    Some(n)
}

/// Whether the same stands in two places.
fn same_text(p: &Vec<char>, i: usize, j: usize, k: usize, l: usize) -> (r: bool)
    requires
        i <= j <= p@.len(),
        k <= l <= p@.len(),
    ensures
        r == (p@.subrange(i as int, j as int) == p@.subrange(k as int, l as int)),
{
    let ghost a = p@.subrange(i as int, j as int);
    let ghost b = p@.subrange(k as int, l as int);
    if j - i != l - k {
        assert(a.len() != b.len());
        return false;
    }
    let mut n: usize = 0;
    while n < j - i
        invariant
            i <= j <= p@.len(),
            k <= l <= p@.len(),
            j - i == l - k,
            n <= j - i,
            a == p@.subrange(i as int, j as int),
            b == p@.subrange(k as int, l as int),
            forall|m: int| 0 <= m < n ==> a[m] == b[m],
        decreases j - i - n,
    {
        if p[i + n] != p[k + n] {
            assert(a[n as int] != b[n as int]);
            return false;
        }
        n += 1;
    }
    assert(a =~= b);
    true
}

/// What has been seen of a pattern.
pub struct Scanner {
    pos: usize,
    extended: bool,
    groups: usize,
    names: Vec<Name>,
    open: Vec<Frame>,
    self_reference: bool,
    far_reference: bool,
    keeps_behind: bool,
    overflow: bool,
}

impl View for Scanner {
    type V = Scan;

    closed spec fn view(&self) -> Scan {
        Scan {
            pos: self.pos as int,
            extended: self.extended,
            groups: self.groups as int,
            names: self.names@,
            open: self.open@,
            self_reference: self.self_reference,
            far_reference: self.far_reference,
            keeps_behind: self.keeps_behind,
            overflow: self.overflow,
        }
    }
}

impl Scanner {
    /// There are no more groups and names than were seen of the pattern, and the pattern is open.
    spec fn wf(&self, p: Seq<char>) -> bool {
        &&& self.groups <= self.pos <= p.len()
        &&& self.open@.len() > 0
        &&& forall|k: int|
            0 <= k < self.names@.len() ==> (#[trigger] self.names@[k]).start <= self.names@[k].end
                <= p.len()
    }

    /// An item of the given length.
    fn item(&mut self, len: usize, refers: bool)
        requires
            old(self).open@.len() > 0,
        ensures
            final(self)@ == old(self)@.item(len as int, refers),
            final(self).names == old(self).names,
            final(self).open@.len() == old(self).open@.len(),
    {
        let n: usize = self.open.len() - 1;
        let f = self.open[n];
        let total: usize = match f.total.checked_add(f.last) {
            Some(total) => total,
            None => {
                self.overflow = true;
                usize::MAX
            },
        };
        let g = Frame {
            total,
            last: len,
            refers: f.refers || f.last_refers,
            last_refers: refers,
            ..f
        };
        self.open.set(n, g);
        assert(self.open@ =~= old(self).open@.drop_last().push(g));
    }

    /// The last item may occur more than once.
    fn repeated(&mut self)
        requires
            old(self).open@.len() > 0,
        ensures
            final(self)@ == old(self)@.repeated(),
            final(self).names == old(self).names,
            final(self).open@.len() == old(self).open@.len(),
    {
        if self.open[self.open.len() - 1].last_refers {
            self.self_reference = true;
        }
    }

    /// The last item occurs so often at least.
    fn repeat(&mut self, count: usize)
        requires
            old(self).open@.len() > 0,
        ensures
            final(self)@ == old(self)@.repeat(count as nat),
            final(self).names == old(self).names,
            final(self).open@.len() == old(self).open@.len(),
    {
        let n: usize = self.open.len() - 1;
        let f = self.open[n];
        let mut last: usize = f.last;
        if count > 1 {
            last = match f.last.checked_mul(count) {
                Some(last) => last,
                None => {
                    self.overflow = true;
                    usize::MAX
                },
            };
        }
        self.open.set(n, Frame { last, ..f });
        assert(self.open@ =~= old(self).open@.drop_last().push(Frame { last, ..f }));
    }

    /// A group is opened.
    fn open_group(&mut self, group: Option<usize>, restore: Option<bool>, behind: bool)
        requires
            old(self).open@.len() > 0,
        ensures
            final(self)@ == old(self)@.open_group(group, restore, behind),
            final(self).names == old(self).names,
            final(self).open@.len() > 0,
    {
        let inner = behind || self.open[self.open.len() - 1].behind;
        self.open.push(
            Frame {
                group,
                restore,
                behind: inner,
                total: 0,
                last: 0,
                refers: false,
                last_refers: false,
            },
        );
    }

    /// A group that captures is opened.
    fn open_capture(&mut self)
        requires
            old(self).open@.len() > 0,
            old(self).groups < usize::MAX,
        ensures
            final(self)@ == old(self)@.open_capture(),
            final(self).names == old(self).names,
            final(self).open@.len() > 0,
    {
        self.groups += 1;
        self.open_group(Some(self.groups), None, false);
    }

    /// The innermost group is closed, and is an item of the one around it.
    fn close_group(&mut self)
        requires
            old(self).open@.len() > 0,
        ensures
            final(self)@ == old(self)@.close_group(),
            final(self).names == old(self).names,
            final(self).open@.len() > 0,
    {
        if self.open.len() <= 1 {
            return;
        }
        let f = self.open[self.open.len() - 1];
        let _ = self.open.pop();
        if let Some(extended) = f.restore {
            self.extended = extended;
        }
        match f.total.checked_add(f.last) {
            Some(len) => self.item(len, f.refers || f.last_refers),
            None => {
                self.item(usize::MAX, f.refers || f.last_refers);
                self.overflow = true;
            },
        }
    }

    /// Whether the group is open.
    fn check_open(&self, group: usize) -> (r: bool)
        ensures
            r == is_open(self.open@, group as int),
    {
        let mut k: usize = 0;
        while k < self.open.len()
            invariant
                k <= self.open@.len(),
                forall|j: int|
                    0 <= j < k ==> !(#[trigger] self.open@[j].group matches Some(g) && g == group),
            decreases self.open@.len() - k,
        {
            if let Some(g) = self.open[k].group {
                if g == group {
                    assert(self.open@[k as int].group matches Some(g) && g == group);
                    return true;
                }
            }
            k += 1;
        }
        false
    }

    /// The group of the last of the names that is what stands from `start` to `end`.
    fn find_named(&self, p: &Vec<char>, start: usize, end: usize) -> (r: Option<usize>)
        requires
            self.wf(p@),
            start <= end <= p@.len(),
        ensures
            match r {
                Some(group) => named_group(p@, self.names@, start as int, end as int) == Some(
                    group as int,
                ),
                None => named_group(p@, self.names@, start as int, end as int) is None,
            },
    {
        let mut k: usize = self.names.len();
        assert(self.names@.take(k as int) =~= self.names@);
        while k > 0
            invariant
                self.wf(p@),
                start <= end <= p@.len(),
                k <= self.names@.len(),
                named_group(p@, self.names@.take(k as int), start as int, end as int)
                    == named_group(p@, self.names@, start as int, end as int),
            decreases k,
        {
            let name = self.names[k - 1];
            assert(self.names@.take(k as int).last() == name);
            assert(self.names@.take(k as int).drop_last() =~= self.names@.take(k - 1));
            if same_text(p, name.start, name.end, start, end) {
                return Some(name.group);
            }
            k -= 1;
        }
        None
    }

    /// Whether what stands from `start` to `end` names a group that is open.
    fn names_open(&self, p: &Vec<char>, start: usize, end: usize) -> (r: bool)
        requires
            self.wf(p@),
            self.pos < p@.len(),
            start <= end <= p@.len(),
        ensures
            r == self@.names_open(p@, start as int, end as int),
    {
        let len: usize = p.len();
        assert(self.groups < len);
        if let Some(group) = self.find_named(p, start, end) {
            return self.check_open(group);
        }
        if start < end && find_digits_end(p, start) >= end {
            return match decimal(p, start, end) {
                Some(group) => self.check_open(group),
                None => false,
            };
        }
        if start < end && p[start] == '-' && end - start > 1 && find_digits_end(p, start + 1)
            >= end {
            if let Some(n) = decimal(p, start + 1, end) {
                if n <= self.groups {
                    return self.check_open(self.groups - n + 1);
                }
                if n == self.groups + 1 {
                    return self.check_open(0);
                }
            }
        }
        false
    }

    /// Whether what stands from `start` to `end` is a number that no group can have.
    fn check_far(&self, p: &Vec<char>, start: usize, end: usize) -> (r: bool)
        requires
            self.wf(p@),
            start <= end <= p@.len(),
        ensures
            r == is_far(p@, self.names@, start as int, end as int),
    {
        if self.find_named(p, start, end).is_some() || start == end || find_digits_end(p, start)
            < end {
            return false;
        }
        match decimal(p, start, end) {
            Some(n) => n > u32::MAX as usize && n <= isize::MAX as usize,
            None => false,
        }
    }

    /// A back-reference by what stands from `start` to `end`.
    fn refer(&mut self, p: &Vec<char>, start: usize, end: usize)
        requires
            old(self).wf(p@),
            old(self).pos < p@.len(),
            start <= end <= p@.len(),
        ensures
            final(self)@ == old(self)@.refer(p@, start as int, end as int),
            final(self).names == old(self).names,
            final(self).open@.len() > 0,
    {
        let refers = self.names_open(p, start, end);
        self.item(1, refers);
    }

    /// The escape at `i`.
    fn escape(&mut self, p: &Vec<char>, i: usize)
        requires
            old(self).wf(p@),
            old(self).pos <= i < p@.len(),
        ensures
            final(self)@ == old(self)@.escape(p@, i as int),
            final(self).wf(p@),
            i < final(self)@.pos,
    {
        let len: usize = p.len();
        let j: usize = i + 1;
        if j >= len {
            self.item(1, false);
            self.pos = p.len();
        } else if check_digit(p[j]) {
            let end: usize = find_digits_end(p, j);
            self.refer(p, j, end);
            self.pos = end;
        } else if p[j] == 'k' && p.len() - j > 1 {
            let close = if p[j + 1] == '\'' {
                '\''
            } else {
                '>'
            };
            let end: usize = find_char(p, j + 2, close);
            if self.check_far(p, j + 2, end) {
                self.far_reference = true;
            }
            self.refer(p, j + 2, end);
            self.pos = past_char(p, j + 2, close);
        } else if p[j] == 'K' {
            if self.open[self.open.len() - 1].behind {
                self.keeps_behind = true;
            }
            self.item(1, false);
            self.pos = j + 1;
        } else {
            self.item(1, false);
            self.pos = find_escape_end(p, i);
        }
    }

    /// The flags that start at `i`.
    fn flags(&mut self, p: &Vec<char>, i: usize)
        requires
            old(self).wf(p@),
            old(self).pos <= i <= p@.len(),
        ensures
            final(self)@ == old(self)@.flags(p@, i as int, false, old(self).extended),
            final(self).wf(p@),
            i <= final(self)@.pos,
    {
        let restore = self.extended;
        let ghost all = self@.flags(p@, i as int, false, restore);
        let mut negated = false;
        let mut k: usize = i;
        loop
            invariant
                self.wf(p@),
                self.pos <= i <= k <= p@.len(),
                self@.flags(p@, k as int, negated, restore) == all,
                all == old(self)@.flags(p@, i as int, false, restore),
                restore == old(self).extended,
            decreases p@.len() - k,
        {
            k = skip(p, self.extended, k);
            if k >= p.len() {
                self.pos = k;
                return;
            }
            if p[k] == ')' {
                self.pos = k + 1;
                return;
            }
            if p[k] == ':' {
                self.open_group(None, Some(restore), false);
                self.pos = k + 1;
                return;
            }
            if p[k] == '-' {
                negated = true;
            } else if p[k] == 'x' {
                self.extended = !negated;
            }
            k += 1;
        }
    }

    /// The name of a group that captures, from `i` on.
    fn named(&mut self, p: &Vec<char>, i: usize)
        requires
            old(self).wf(p@),
            old(self).pos < i <= p@.len(),
        ensures
            final(self)@ == old(self)@.named(p@, i as int),
            final(self).wf(p@),
            i <= final(self)@.pos,
    {
        let name = Name { start: i, end: find_char(p, i, '>'), group: self.groups + 1 };
        self.names.push(name);
        self.open_capture();
        self.pos = past_char(p, i, '>');
    }

    /// The parenthesis at `i`.
    fn parenthesis(&mut self, p: &Vec<char>, i: usize)
        requires
            old(self).wf(p@),
            old(self).pos <= i < p@.len(),
        ensures
            final(self)@ == old(self)@.parenthesis(p@, i as int),
            final(self).wf(p@),
            i < final(self)@.pos,
    {
        let len: usize = p.len();
        let j: usize = skip(p, self.extended, i + 1);
        if j >= len || p[j] != '?' {
            self.open_capture();
            self.pos = j;
            return;
        }
        let second = check_at(p, j + 1, '<');
        if check_at(p, j + 1, '=') || check_at(p, j + 1, '!') || check_at(p, j + 1, '>') {
            self.open_group(None, None, false);
            self.pos = j + 2;
        } else if second && (check_at(p, j + 2, '=') || check_at(p, j + 2, '!')) {
            self.open_group(None, None, true);
            self.pos = j + 3;
        } else if second {
            self.named(p, j + 2);
        } else if check_at(p, j + 1, 'P') && check_at(p, j + 2, '<') {
            self.named(p, j + 3);
        } else if check_at(p, j + 1, 'P') && check_at(p, j + 2, '=') {
            self.refer(p, j + 3, find_char(p, j + 3, ')'));
            self.pos = past_char(p, j + 3, ')');
        } else if check_at(p, j + 1, '(') {
            // A condition, which is a group in a group
            self.open_group(None, None, false);
            self.open_group(None, None, false);
            self.pos = j + 2;
        } else {
            self.flags(p, j + 1);
        }
    }

    /// How often what stands before `i` is repeated at least, if a repetition is given there.
    fn count(&self, p: &Vec<char>, i: usize) -> (r: Option<usize>)
        requires
            i < p@.len(),
        ensures
            match r {
                Some(n) => repeat_count(p@, self@.extended, i as int) == Some(n as nat),
                None => repeat_count(p@, self@.extended, i as int) is None,
            },
    {
        if i >= p.len() || p[i] != '{' {
            return None;
        }
        let j: usize = skip(p, self.extended, i + 1);
        let end: usize = find_digits_end(p, j);
        if j < end {
            decimal(p, j, end)
        } else {
            None
        }
    }

    /// What stands next.
    fn step(&mut self, p: &Vec<char>)
        requires
            old(self).wf(p@),
            old(self).pos < p@.len(),
        ensures
            final(self)@ == old(self)@.step(p@),
            final(self).wf(p@),
            old(self)@.pos < final(self)@.pos,
    {
        let i: usize = skip(p, self.extended, self.pos);
        if i >= p.len() {
            self.pos = i;
        } else if p[i] == '\\' {
            self.escape(p, i);
        } else if p[i] == '[' {
            self.item(1, false);
            self.pos = find_class_end(p, i);
        } else if p[i] == '(' {
            self.parenthesis(p, i);
        } else if p[i] == ')' {
            self.close_group();
            self.pos = i + 1;
        } else {
            if p[i] == '*' || p[i] == '+' || p[i] == '{' {
                self.repeated();
            }
            // A brace counts even where it gives a repetition: it may be one that is none
            if let Some(n) = self.count(p, i) {
                self.repeat(n);
            }
            self.item(1, false);
            self.pos = i + 1;
        }
    }

    /// All of the pattern.
    pub fn scan(pattern: &str) -> (r: Self)
        ensures
            r@ == scanned(pattern@),
    {
        let p = to_chars(pattern);
        let mut open: Vec<Frame> = Vec::new();
        open.push(
            Frame {
                group: None,
                restore: None,
                behind: false,
                total: 0,
                last: 0,
                refers: false,
                last_refers: false,
            },
        );
        let mut r = Scanner {
            pos: 0,
            extended: false,
            groups: 0,
            names: Vec::new(),
            open,
            self_reference: false,
            far_reference: false,
            keeps_behind: false,
            overflow: false,
        };
        assert(r@.open =~= Scan::start().open);
        assert(r@.names =~= Scan::start().names);
        while r.pos < p.len()
            invariant
                p@ == pattern@,
                r.wf(p@),
                r@.rest(p@) == scanned(p@),
            decreases p@.len() - r.pos,
        {
            r.step(&p);
        }
        r.item(0, false);
        r
    }

    /// Whether something was repeated in which a back-reference stands in the group that it names.
    pub fn self_reference(&self) -> (r: bool)
        ensures
            r == self@.self_reference,
    {
        self.self_reference
    }

    /// Whether a back-reference had a number that no group can have.
    pub fn far_reference(&self) -> (r: bool)
        ensures
            r == self@.far_reference,
    {
        self.far_reference
    }

    /// Whether the pattern with all repetitions written out was too long.
    pub fn overflow(&self) -> (r: bool)
        ensures
            r == self@.overflow,
    {
        self.overflow
    }
}

} // verus!
