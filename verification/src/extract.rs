//! From the text of a transcript to its messages. A header line opens a
//! message; every other line continues the message that is open, and is
//! dropped where none is. The messages are first framed, their dates and
//! times of day kept as text, and then read.

use crate::header::{
    header_author, header_rest, header_stamp_text, is_header, layout_of, lemma_layout_unique,
    match_header, stamp_string,
};
use crate::lines::{lines_of, spans_match, split_lines};
use crate::text::{
    append_chars, chars_of, lemma_trimmed, lemma_word_starts_bound, string_of, trim_chars,
    trimmed, word_count,
};
use crate::timestamp::Timestamp;
use vstd::prelude::*;
use vstd::slice::slice_subrange;

verus! {

/// A message as it stands in a transcript, its date and time not yet read.
#[derive(Clone, Debug)]
pub struct Frame {
    /// The index of the header line, the first line having index 0.
    pub line: usize,
    /// The date in the form `M/D/YY`, a space, the time of day in the form
    /// `h:mm:ss`, a space, and `AM` or `PM`.
    pub stamp: String,
    /// The author, as the header spells it.
    pub author: String,
    /// The text, without leading and trailing white space.
    pub text: String,
}

/// A frame as a mathematical value.
pub struct FrameView {
    pub line: int,
    pub stamp: Seq<char>,
    pub author: Seq<char>,
    pub text: Seq<char>,
}

impl View for Frame {
    type V = FrameView;

    open spec fn view(&self) -> FrameView {
        FrameView {
            line: self.line as int,
            stamp: self.stamp@,
            author: self.author@,
            text: self.text@,
        }
    }
}

/// The frames `fs` as mathematical values.
pub open spec fn frame_views(fs: Seq<Frame>) -> Seq<FrameView> {
    fs.map_values(|f: Frame| f@)
}

/// One message of a transcript.
#[derive(Clone, Debug)]
pub struct Message {
    /// The instant that the header gives.
    pub timestamp: Timestamp,
    /// The author, as the header spells it.
    pub author: String,
    /// The text, without leading and trailing white space.
    pub text: String,
}

/// A message as a mathematical value.
pub struct MessageView {
    pub timestamp: Timestamp,
    pub author: Seq<char>,
    pub text: Seq<char>,
}

impl View for Message {
    type V = MessageView;

    open spec fn view(&self) -> MessageView {
        MessageView { timestamp: self.timestamp, author: self.author@, text: self.text@ }
    }
}

impl Message {
    /// A copy of the message.
    pub fn duplicate(&self) -> (m: Message)
        ensures
            m@ == self@,
    {
        Message {
            timestamp: self.timestamp,
            author: self.author.clone(),
            text: self.text.clone(),
        }
    }
}

/// The messages `ms` as mathematical values.
pub open spec fn views(ms: Seq<Message>) -> Seq<MessageView> {
    ms.map_values(|m: Message| m@)
}

/// The number of words in all messages of `ms`.
pub open spec fn total_words(ms: Seq<MessageView>) -> nat
    decreases ms.len(),
{
    if ms.len() == 0 {
        0
    } else {
        total_words(ms.drop_last()) + word_count(ms.last().text)
    }
}

/// A header line whose digits name no date or no time of day.
#[derive(Clone, Copy, Debug, PartialEq, Eq, Structural)]
pub struct ParseHeaderError {
    /// The index of the line, the first line having index 0.
    pub line: usize,
}

/// None of the lines from index `from` up to index `to` is a header line.
pub open spec fn no_header_between(lines: Seq<Seq<char>>, from: int, to: int) -> bool {
    forall|i: int| from <= i < to ==> !is_header(#[trigger] lines[i])
}

/// The index of the first header line at or after index `from`, or the number
/// of lines if there is none.
pub open spec fn next_header(lines: Seq<Seq<char>>, from: int) -> int
    decreases lines.len() - from,
{
    if 0 <= from < lines.len() && !is_header(lines[from]) {
        next_header(lines, from + 1)
    } else {
        from
    }
}

/// The lines from index `from` up to index `to`, each with a line feed before
/// it.
pub open spec fn continuation(lines: Seq<Seq<char>>, from: int, to: int) -> Seq<char>
    decreases to - from,
{
    if from < to {
        continuation(lines, from, to - 1) + seq!['\n'] + lines[to - 1]
    } else {
        Seq::empty()
    }
}

/// What the message that line `i` opens has gathered up to line `to`: the rest
/// of its header line, and the lines between.
pub open spec fn body_text(lines: Seq<Seq<char>>, i: int, to: int) -> Seq<char> {
    header_rest(lines[i]) + continuation(lines, i + 1, to)
}

/// The frame that the header line of index `i` opens. It runs to the next
/// header line, or to the last line.
pub open spec fn frame_at(lines: Seq<Seq<char>>, i: int) -> FrameView {
    FrameView {
        line: i,
        stamp: header_stamp_text(lines[i]),
        author: header_author(lines[i]),
        text: trimmed(body_text(lines, i, next_header(lines, i + 1))),
    }
}

/// The frames that the header lines before index `n` open, in the order of
/// those lines.
pub open spec fn frames_before(lines: Seq<Seq<char>>, n: int) -> Seq<FrameView>
    decreases n,
{
    if n <= 0 {
        Seq::empty()
    } else if is_header(lines[n - 1]) {
        frames_before(lines, n - 1).push(frame_at(lines, n - 1))
    } else {
        frames_before(lines, n - 1)
    }
}

/// The frames of a transcript with the lines `lines`: one for each header
/// line, in the order of those lines.
pub open spec fn frames_of(lines: Seq<Seq<char>>) -> Seq<FrameView> {
    frames_before(lines, lines.len() as int)
}

/// The number of header lines before index `n`.
pub open spec fn header_count(lines: Seq<Seq<char>>, n: int) -> nat
    decreases n,
{
    if n <= 0 {
        0
    } else {
        header_count(lines, n - 1) + if is_header(lines[n - 1]) {
            1nat
        } else {
            0nat
        }
    }
}

/// A transcript has as many frames as header lines.
pub proof fn lemma_one_frame_per_header(lines: Seq<Seq<char>>, n: int)
    ensures
        frames_before(lines, n).len() == header_count(lines, n),
    decreases n,
{
    if n > 0 {
        lemma_one_frame_per_header(lines, n - 1);
    }
}

proof fn lemma_next_header(lines: Seq<Seq<char>>, from: int, to: int)
    requires
        0 <= from <= to <= lines.len(),
        no_header_between(lines, from, to),
        to < lines.len() ==> is_header(lines[to]),
    ensures
        next_header(lines, from) == to,
    decreases to - from,
{
    if from < to {
        assert(!is_header(lines[from]));
        lemma_next_header(lines, from + 1, to);
    }
}

proof fn lemma_frames_skip(lines: Seq<Seq<char>>, from: int, to: int)
    requires
        0 <= from <= to,
        no_header_between(lines, from, to),
    ensures
        frames_before(lines, to) == frames_before(lines, from),
    decreases to - from,
{
    if from < to {
        assert(!is_header(lines[to - 1]));
        lemma_frames_skip(lines, from, to - 1);
    }
}

/// The number of characters in the texts of the frames `fs`.
pub open spec fn texts_len(fs: Seq<FrameView>) -> nat
    decreases fs.len(),
{
    if fs.len() == 0 {
        0
    } else {
        texts_len(fs.drop_last()) + fs.last().text.len()
    }
}

/// Frames the messages of the transcript `content`: one frame for each header
/// line, in the order of the header lines. The texts of the frames together
/// are no longer than the transcript.
pub fn frame(content: &str) -> (frames: Vec<Frame>)
    ensures
        frame_views(frames@) == frames_of(lines_of(content@)),
        frames@.len() == header_count(lines_of(content@), lines_of(content@).len() as int),
        texts_len(frame_views(frames@)) <= content@.len() <= usize::MAX,
        forall|k: int| 0 <= k < frames@.len() ==> (#[trigger] frames@[k]).author@.len() > 0,
{
    let chars = chars_of(content);
    let size = chars.len();
    let spans = split_lines(chars.as_slice());
    let ghost lines = lines_of(content@);
    let mut frames: Vec<Frame> = Vec::new();
    let mut open = false;
    let mut at: usize = 0;
    let mut stamp = String::new();
    let mut author = String::new();
    let mut body: Vec<char> = Vec::new();
    let mut n: usize = 0;
    let ghost mut used: int = 0;
    while n < spans.len()
        invariant
            n <= spans.len() == lines.len(),
            chars@ == content@,
            chars@.len() == size,
            lines == lines_of(content@),
            spans_match(chars@, spans@, lines),
            used <= chars@.len() + 1,
            n < spans@.len() ==> used <= spans@[n as int].from,
            texts_len(frame_views(frames@)) + body@.len() + if open {
                1int
            } else {
                0int
            } <= used,
            forall|k: int| 0 <= k < frames@.len() ==> (#[trigger] frames@[k]).author@.len() > 0,
            !open ==> no_header_between(lines, 0, n as int) && frames@.len() == 0,
            open ==> {
                &&& at < n
                &&& author@.len() > 0
                &&& is_header(lines[at as int])
                &&& stamp@ == header_stamp_text(lines[at as int])
                &&& author@ == header_author(lines[at as int])
                &&& body@ == body_text(lines, at as int, n as int)
                &&& no_header_between(lines, at + 1, n as int)
                &&& frame_views(frames@) == frames_before(lines, at as int)
            },
        decreases spans.len() - n,
    {
        let span = spans[n];
        let line = slice_subrange(chars.as_slice(), span.from, span.to);
        assert(line@ == lines[n as int]);
        match match_header(line) {
            Some(s) => {
                proof {
                    lemma_layout_unique(line@, s@, layout_of(line@));
                }
                let u: usize = 18 + s.month_digits + s.day_digits + s.hour_digits;
                let new_stamp = stamp_string(line, &s);
                let new_author = string_of(line, u, u + s.author_len);
                if open {
                    let text = trim_chars(body.as_slice());
                    let ghost before = frames@;
                    frames.push(Frame { line: at, stamp, author, text });
                    proof {
                        lemma_trimmed(body@);
                        assert(frame_views(frames@).drop_last() =~= frame_views(before));
                        lemma_next_header(lines, at + 1, n as int);
                        lemma_frames_skip(lines, at + 1, n as int);
                        assert(frame_views(frames@) =~= frame_views(before).push(
                            frame_at(lines, at as int),
                        ));
                    }
                } else {
                    proof {
                        lemma_frames_skip(lines, 0, n as int);
                    }
                }
                stamp = new_stamp;
                author = new_author;
                body = Vec::new();
                append_chars(&mut body, line, u + s.author_len + 2, line.len());
                open = true;
                at = n;
                proof {
                    assert(body@ =~= body_text(lines, at as int, n + 1));
                }
            },
            None => {
                body.push('\n');
                append_chars(&mut body, line, 0, line.len());
                proof {
                    if open {
                        assert(body@ =~= body_text(lines, at as int, n + 1));
                    }
                }
            },
        }
        proof {
            used = span.to + 1;
            if n + 1 < spans@.len() {
                assert(spans@[n as int].to < spans@[n + 1].from);
            }
        }
        n += 1;
    }
    if open {
        let text = trim_chars(body.as_slice());
        let ghost before = frames@;
        frames.push(Frame { line: at, stamp, author, text });
        proof {
            lemma_trimmed(body@);
            assert(frame_views(frames@).drop_last() =~= frame_views(before));
            lemma_next_header(lines, at + 1, n as int);
            lemma_frames_skip(lines, at + 1, n as int);
            assert(frame_views(frames@) =~= frame_views(before).push(frame_at(lines, at as int)));
            assert(texts_len(frame_views(frames@)) == texts_len(frame_views(before))
                + text@.len());
        }
    } else {
        proof {
            lemma_frames_skip(lines, 0, n as int);
            assert(frame_views(frames@) =~= frames_of(lines));
            assert(texts_len(frame_views(frames@)) == 0);
        }
    }
    proof {
        lemma_one_frame_per_header(lines, lines.len() as int);
        assert(texts_len(frame_views(frames@)) <= size);
    }
    frames
}

/// The instant that the frame `f` names, or `None` where its digits name no
/// date or no time of day.
pub open spec fn stamp_of(f: FrameView) -> Option<Timestamp> {
    Timestamp::read(f.stamp)
}

/// The message of the frame `f`, where `f` names an instant.
pub open spec fn message_of(f: FrameView) -> MessageView {
    MessageView { timestamp: stamp_of(f)->0, author: f.author, text: f.text }
}

/// The messages of the frames `fs`, where each names an instant.
pub open spec fn messages_from(fs: Seq<FrameView>) -> Seq<MessageView> {
    fs.map_values(|f: FrameView| message_of(f))
}

/// The frame of index `k` is the first of `fs` that names no instant.
pub open spec fn first_unread(fs: Seq<FrameView>, k: int) -> bool {
    &&& 0 <= k < fs.len()
    &&& stamp_of(fs[k]) is None
    &&& forall|j: int| 0 <= j < k ==> stamp_of(#[trigger] fs[j]) is Some
}

/// What reading the frames `fs` gives: their messages, or the line of the
/// first frame that names no instant.
pub open spec fn reading_of(
    fs: Seq<FrameView>,
    r: Result<Seq<MessageView>, ParseHeaderError>,
) -> bool {
    match r {
        Ok(ms) => {
            &&& forall|k: int| 0 <= k < fs.len() ==> stamp_of(#[trigger] fs[k]) is Some
            &&& ms == messages_from(fs)
        },
        Err(e) => exists|k: int| #[trigger] first_unread(fs, k) && fs[k].line == e.line,
    }
}

/// The outcome `r` with its messages as mathematical values.
pub open spec fn outcome_view(r: Result<Vec<Message>, ParseHeaderError>) -> Result<
    Seq<MessageView>,
    ParseHeaderError,
> {
    match r {
        Ok(ms) => Ok(views(ms@)),
        Err(e) => Err(e),
    }
}

/// Reads the dates and times of the frames `frames`, and gives their
/// messages.
///
/// Fails on the first frame whose digits name no date or no time of day, and
/// on no other input.
pub fn read_frames(frames: &[Frame]) -> (r: Result<Vec<Message>, ParseHeaderError>)
    ensures
        reading_of(frame_views(frames@), outcome_view(r)),
        r matches Ok(ms) ==> forall|k: int| 0 <= k < ms@.len() ==> (#[trigger] ms@[k]).timestamp.wf(),
{
    let ghost fs = frame_views(frames@);
    let mut messages: Vec<Message> = Vec::new();
    let mut k: usize = 0;
    while k < frames.len()
        invariant
            k <= frames@.len(),
            fs == frame_views(frames@),
            forall|j: int| 0 <= j < k ==> stamp_of(#[trigger] fs[j]) is Some,
            forall|j: int| 0 <= j < messages@.len() ==> (#[trigger] messages@[j]).timestamp.wf(),
            views(messages@) == messages_from(fs.take(k as int)),
        decreases frames@.len() - k,
    {
        let f = &frames[k];
        let ghost before = messages@;
        match Timestamp::parse(f.stamp.as_str()) {
            Some(timestamp) => {
                messages.push(
                    Message { timestamp, author: f.author.clone(), text: f.text.clone() },
                );
                proof {
                    assert(views(messages@) =~= views(before).push(message_of(fs[k as int])));
                    assert(messages_from(fs.take(k + 1)) =~= messages_from(fs.take(k as int)).push(
                        message_of(fs[k as int]),
                    ));
                }
            },
            None => {
                proof {
                    assert(first_unread(fs, k as int));
                }
                return Err(ParseHeaderError { line: f.line });
            },
        }
        k += 1;
    }
    proof {
        assert(fs.take(frames@.len() as int) =~= fs);
    }
    Ok(messages)
}

/// The words of messages are at most as many as the characters of the texts
/// of their frames.
pub proof fn lemma_words_within_texts(fs: Seq<FrameView>)
    ensures
        total_words(messages_from(fs)) <= texts_len(fs),
    decreases fs.len(),
{
    if fs.len() > 0 {
        lemma_words_within_texts(fs.drop_last());
        assert(messages_from(fs).drop_last() =~= messages_from(fs.drop_last()));
        lemma_word_starts_bound(fs.last().text, fs.last().text.len() as int);
    }
}

/// Extracts the messages of the transcript `content`: one for each header
/// line, in the order of the header lines. Their words are few enough to be
/// counted.
///
/// Fails on the first header line whose digits name no date or no time of
/// day, and on no other input.
pub fn parse(content: &str) -> (r: Result<Vec<Message>, ParseHeaderError>)
    ensures
        reading_of(frames_of(lines_of(content@)), outcome_view(r)),
        r matches Ok(ms) ==> ms@.len() == header_count(
            lines_of(content@),
            lines_of(content@).len() as int,
        ),
        r matches Ok(ms) ==> forall|k: int| 0 <= k < ms@.len() ==> (#[trigger] ms@[k]).timestamp.wf(),
        r matches Ok(ms) ==> total_words(views(ms@)) <= usize::MAX,
        r matches Ok(ms) ==> forall|k: int| 0 <= k < ms@.len() ==> (#[trigger] ms@[k]).author@.len() > 0,
{
    let frames = frame(content);
    let r = read_frames(frames.as_slice());
    proof {
        if r is Ok {
            let ms = r->Ok_0;
            assert(views(ms@).len() == frames@.len());
            lemma_words_within_texts(frame_views(frames@));
            assert forall|k: int| 0 <= k < ms@.len() implies (#[trigger] ms@[k]).author@.len()
                > 0 by {
                assert(views(ms@)[k].author == frame_views(frames@)[k].author);
                assert(frames@[k].author@.len() > 0);
            }
        }
    }
    r
}

} // verus!
