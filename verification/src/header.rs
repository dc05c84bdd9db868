//! The header line that opens a message:
//!
//! ```text
//! [M/D/YY, h:mm:ss<U+202F>AM] author: rest
//! ```
//!
//! `M`, `D` and `h` are one or two decimal digits, `YY`, `mm` and `ss` two, the
//! character before `AM` or `PM` is the narrow no-break space, the author is
//! the shortest run of at least one character that `": "` follows, and the
//! rest runs to the end of the line.

use crate::text::{is_digit, is_digit_char, push_chars, string_of};
use vstd::prelude::*;

verus! {

/// The lengths that settle where each part of a header line lies.
pub struct Layout {
    pub month_digits: int,
    pub day_digits: int,
    pub hour_digits: int,
    pub author_len: int,
}

impl Layout {
    /// The index at which the time of day begins.
    pub open spec fn time_at(self) -> int {
        7 + self.month_digits + self.day_digits
    }

    /// The index at which the author begins.
    pub open spec fn author_at(self) -> int {
        18 + self.month_digits + self.day_digits + self.hour_digits
    }

    /// The index at which the rest of the line begins.
    pub open spec fn rest_at(self) -> int {
        self.author_at() + self.author_len + 2
    }
}

/// `line` holds `n` digits from index `at` on, for `n` one or two.
pub open spec fn digits_at(line: Seq<char>, at: int, n: int) -> bool {
    &&& is_digit(line[at])
    &&& n == 2 ==> is_digit(line[at + 1])
}

/// `line` holds a colon at index `at` and a space after it.
pub open spec fn separator_at(line: Seq<char>, at: int) -> bool {
    &&& 0 <= at
    &&& at + 1 < line.len()
    &&& line[at] == ':'
    &&& line[at + 1] == ' '
}

/// `line` is a header line whose parts have the lengths that `l` gives.
pub open spec fn header_layout(line: Seq<char>, l: Layout) -> bool {
    let a = l.month_digits;
    let b = l.day_digits;
    let c = l.hour_digits;
    let t = l.time_at();
    let u = l.author_at();
    &&& 1 <= a <= 2
    &&& 1 <= b <= 2
    &&& 1 <= c <= 2
    &&& 1 <= l.author_len
    &&& l.rest_at() <= line.len()
    &&& line[0] == '['
    &&& digits_at(line, 1, a)
    &&& line[1 + a] == '/'
    &&& digits_at(line, 2 + a, b)
    &&& line[2 + a + b] == '/'
    &&& digits_at(line, 3 + a + b, 2)
    &&& line[5 + a + b] == ','
    &&& line[6 + a + b] == ' '
    &&& digits_at(line, t, c)
    &&& line[t + c] == ':'
    &&& digits_at(line, t + c + 1, 2)
    &&& line[t + c + 3] == ':'
    &&& digits_at(line, t + c + 4, 2)
    &&& line[t + c + 6] == '\u{202F}'
    &&& (line[t + c + 7] == 'A' || line[t + c + 7] == 'P')
    &&& line[t + c + 8] == 'M'
    &&& line[t + c + 9] == ']'
    &&& line[t + c + 10] == ' '
    &&& separator_at(line, u + l.author_len)
    &&& forall|i: int| u < i < u + l.author_len ==> !separator_at(line, i)
}

/// `line` is a header line.
pub open spec fn is_header(line: Seq<char>) -> bool {
    exists|l: Layout| header_layout(line, l)
}

/// The layout of the header line `line`.
pub open spec fn layout_of(line: Seq<char>) -> Layout {
    choose|l: Layout| header_layout(line, l)
}

/// A header line has one layout only.
pub proof fn lemma_layout_unique(line: Seq<char>, l1: Layout, l2: Layout)
    requires
        header_layout(line, l1),
        header_layout(line, l2),
    ensures
        l1 == l2,
{
    assert(l1.month_digits == l2.month_digits);
    assert(l1.day_digits == l2.day_digits);
    assert(l1.hour_digits == l2.hour_digits);
    let u = l1.author_at();
    if l1.author_len < l2.author_len {
        assert(separator_at(line, u + l1.author_len));
    } else if l2.author_len < l1.author_len {
        assert(separator_at(line, u + l2.author_len));
    }
}

/// The date of a header line in the form `M/D/YY`, a space, the time of day in
/// the form `h:mm:ss`, a space, and `AM` or `PM`.
pub open spec fn stamp_text(line: Seq<char>, l: Layout) -> Seq<char> {
    let t = l.time_at();
    let c = l.hour_digits;
    line.subrange(1, t - 2) + seq![' '] + line.subrange(t, t + c + 6) + seq![' ']
        + line.subrange(t + c + 7, t + c + 9)
}

/// The author of a header line.
pub open spec fn author_text(line: Seq<char>, l: Layout) -> Seq<char> {
    line.subrange(l.author_at(), l.author_at() + l.author_len)
}

/// What follows the author and `": "` on a header line.
pub open spec fn rest_text(line: Seq<char>, l: Layout) -> Seq<char> {
    line.subrange(l.rest_at(), line.len() as int)
}

/// The date and the time of day of the header line `line`, as
/// [`stamp_text`] gives them.
pub open spec fn header_stamp_text(line: Seq<char>) -> Seq<char> {
    stamp_text(line, layout_of(line))
}

/// The author that the header line `line` names.
pub open spec fn header_author(line: Seq<char>) -> Seq<char> {
    author_text(line, layout_of(line))
}

/// What follows the author and `": "` on the header line `line`.
pub open spec fn header_rest(line: Seq<char>) -> Seq<char> {
    rest_text(line, layout_of(line))
}

/// The lengths found in a header line.
#[derive(Clone, Copy, Debug)]
pub struct Spans {
    pub month_digits: usize,
    pub day_digits: usize,
    pub hour_digits: usize,
    pub author_len: usize,
}

impl View for Spans {
    type V = Layout;

    open spec fn view(&self) -> Layout {
        Layout {
            month_digits: self.month_digits as int,
            day_digits: self.day_digits as int,
            hour_digits: self.hour_digits as int,
            author_len: self.author_len as int,
        }
    }
}

fn digit_at(line: &[char], at: usize) -> (r: bool)
    ensures
        r == (at < line@.len() && is_digit(line@[at as int])),
{
    at < line.len() && is_digit_char(line[at])
}

fn char_at(line: &[char], at: usize, c: char) -> (r: bool)
    ensures
        r == (at < line@.len() && line@[at as int] == c),
{
    at < line.len() && line[at] == c
}

/// Tells whether `line` is a header line, and if so where its parts lie.
#[verifier::loop_isolation(false)]
pub fn match_header(line: &[char]) -> (r: Option<Spans>)
    ensures
        r is Some <==> is_header(line@),
        r matches Some(s) ==> header_layout(line@, s@),
{
    let n = line.len();
    if !char_at(line, 0, '[') || !digit_at(line, 1) {
        return None;
    }
    let a: usize = if digit_at(line, 2) { 2 } else { 1 };
    if !char_at(line, 1 + a, '/') || !digit_at(line, 2 + a) {
        return None;
    }
    let b: usize = if digit_at(line, 3 + a) { 2 } else { 1 };
    if !char_at(line, 2 + a + b, '/') || !digit_at(line, 3 + a + b) || !digit_at(line, 4 + a + b)
        || !char_at(line, 5 + a + b, ',') || !char_at(line, 6 + a + b, ' ') {
        return None;
    }
    let t: usize = 7 + a + b;
    if !digit_at(line, t) {
        return None;
    }
    let c: usize = if digit_at(line, t + 1) { 2 } else { 1 };
    if !char_at(line, t + c, ':') || !digit_at(line, t + c + 1) || !digit_at(line, t + c + 2)
        || !char_at(line, t + c + 3, ':') || !digit_at(line, t + c + 4) || !digit_at(
        line,
        t + c + 5,
    ) || !char_at(line, t + c + 6, '\u{202F}') {
        return None;
    }
    if !(char_at(line, t + c + 7, 'A') || char_at(line, t + c + 7, 'P')) || !char_at(
        line,
        t + c + 8,
        'M',
    ) || !char_at(line, t + c + 9, ']') || !char_at(line, t + c + 10, ' ') {
        return None;
    }
    let u: usize = t + c + 11;
    let mut i: usize = u + 1;
    while i < n
        invariant
            u < i,
            n == line@.len(),
            forall|j: int| u < j < i ==> !separator_at(line@, j),
        decreases n - i,
    {
        if line[i] == ':' && char_at(line, i + 1, ' ') {
            let s = Spans { month_digits: a, day_digits: b, hour_digits: c, author_len: i - u };
            assert(header_layout(line@, s@));
            return Some(s);
        }
        i += 1;
    }
    None
}

/// The date and the time of day of a header line, as [`stamp_text`] gives
/// them.
pub fn stamp_string(line: &[char], s: &Spans) -> (text: String)
    requires
        header_layout(line@, s@),
    ensures
        text@ == stamp_text(line@, s@),
{
    let t: usize = 7 + s.month_digits + s.day_digits;
    let c: usize = s.hour_digits;
    let mut text = string_of(line, 1, t - 2);
    text.push(' ');
    push_chars(&mut text, line, t, t + c + 6);
    text.push(' ');
    push_chars(&mut text, line, t + c + 7, t + c + 9);
    assert(text@ =~= stamp_text(line@, s@));
    text
}

} // verus!
