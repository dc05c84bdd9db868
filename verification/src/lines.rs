//! The lines of a text. A line ends at a line feed or at the end of the text;
//! the line feed is no part of it, nor is a carriage return right before the
//! line feed. A text that ends in a line feed has no empty line after it.

use vstd::prelude::*;

verus! {

/// The first index at or after `from` that holds a line feed, or the length
/// of `s` if there is none.
pub open spec fn line_end(s: Seq<char>, from: int) -> int
    decreases s.len() - from,
{
    if 0 <= from < s.len() && s[from] != '\n' {
        line_end(s, from + 1)
    } else {
        from
    }
}

/// A line ends at or after its beginning, and within the text.
pub proof fn lemma_line_end_bounds(s: Seq<char>, from: int)
    requires
        0 <= from <= s.len(),
    ensures
        from <= line_end(s, from) <= s.len(),
    decreases s.len() - from,
{
    if from < s.len() && s[from] != '\n' {
        lemma_line_end_bounds(s, from + 1);
    }
}

/// Where the text of the line `s[from..end]` stops: before a carriage return
/// that the line feed at `end` follows, and else at `end`.
pub open spec fn text_end(s: Seq<char>, from: int, end: int) -> int {
    if from < end < s.len() && s[end - 1] == '\r' {
        end - 1
    } else {
        end
    }
}

/// The lines of `s` that begin at or after index `from`, a line beginning at
/// `from`.
pub open spec fn lines_from(s: Seq<char>, from: int) -> Seq<Seq<char>>
    decreases s.len() + 1 - from,
    via lines_from_decreases
{
    if 0 <= from < s.len() {
        let end = line_end(s, from);
        seq![s.subrange(from, text_end(s, from, end))] + lines_from(s, end + 1)
    } else {
        Seq::empty()
    }
}

#[via_fn]
proof fn lines_from_decreases(s: Seq<char>, from: int) {
    if 0 <= from < s.len() {
        lemma_line_end_bounds(s, from);
    }
}

/// The lines of `s`.
pub open spec fn lines_of(s: Seq<char>) -> Seq<Seq<char>> {
    lines_from(s, 0)
}

/// Where a line lies in a text: its characters are those from index `from`
/// up to index `to`.
#[derive(Clone, Copy, Debug)]
pub struct Span {
    pub from: usize,
    pub to: usize,
}

/// `spans` tell where the lines `lines` lie in `s`: one after the other, with
/// at least one character between two of them.
pub open spec fn spans_match(s: Seq<char>, spans: Seq<Span>, lines: Seq<Seq<char>>) -> bool {
    &&& spans.len() == lines.len()
    &&& forall|i: int|
        0 <= i < spans.len() ==> {
            &&& (#[trigger] spans[i]).from <= spans[i].to <= s.len()
            &&& s.subrange(spans[i].from as int, spans[i].to as int) == lines[i]
        }
    &&& forall|i: int, j: int|
        0 <= i < j < spans.len() ==> (#[trigger] spans[i]).to < (#[trigger] spans[j]).from
}

/// Finds the lines of `s`.
pub fn split_lines(s: &[char]) -> (spans: Vec<Span>)
    ensures
        spans_match(s@, spans@, lines_of(s@)),
{
    let n = s.len();
    let mut spans: Vec<Span> = Vec::new();
    let ghost mut done: Seq<Seq<char>> = Seq::empty();
    let mut from: usize = 0;
    while from < n
        invariant
            from <= n == s@.len(),
            spans_match(s@, spans@, done),
            from < n ==> forall|i: int| 0 <= i < spans@.len() ==> (#[trigger] spans@[i]).to < from,
            lines_of(s@) == done + lines_from(s@, from as int),
        decreases n - from,
    {
        let mut end: usize = from;
        while end < n && s[end] != '\n'
            invariant
                from <= end <= n == s@.len(),
                line_end(s@, from as int) == line_end(s@, end as int),
            decreases n - end,
        {
            end += 1;
        }
        let to: usize = if from < end && end < n && s[end - 1] == '\r' {
            end - 1
        } else {
            end
        };
        let ghost line = s@.subrange(from as int, to as int);
        proof {
            lemma_line_end_bounds(s@, from as int);
            assert(done + lines_from(s@, from as int) =~= done.push(line) + lines_from(
                s@,
                end as int + 1,
            ));
            done = done.push(line);
        }
        spans.push(Span { from, to });
        from = if end < n {
            end + 1
        } else {
            n
        };
    }
    proof {
        assert(done + lines_from(s@, from as int) =~= done);
    }
    spans
}

} // verus!
