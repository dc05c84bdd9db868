//! Per-author statistics of a sequence of messages.

use crate::extract::{total_words, views, Message, MessageView};
use crate::text::{count_words, word_count};
use crate::timestamp::Timestamp;
use vstd::prelude::*;
use vstd::seq_lib::{to_multiset_contains, to_multiset_len, to_multiset_remove};

verus! {

/// A share of a whole, kept as the exact ratio `part / whole`. The share of
/// an empty whole is zero.
#[derive(Clone, Copy, Debug, PartialEq, Eq, Structural)]
pub struct Percent {
    pub part: u64,
    pub whole: u64,
}

/// What one author has sent.
#[derive(Clone, Debug)]
pub struct Stat {
    /// The author.
    pub user: String,
    /// The number of the author's messages.
    pub num_messages: u64,
    /// The number of words in the author's messages.
    pub num_words: u64,
    /// The earliest instant of the author's messages.
    pub first_message: Timestamp,
    /// The author's share of all messages.
    pub percent_messages: Percent,
    /// The author's share of all words.
    pub percent_words: Percent,
}

/// The statistics of one author as a mathematical value.
pub struct StatView {
    pub user: Seq<char>,
    pub num_messages: u64,
    pub num_words: u64,
    pub first_message: Timestamp,
    pub percent_messages: Percent,
    pub percent_words: Percent,
}

impl View for Stat {
    type V = StatView;

    open spec fn view(&self) -> StatView {
        StatView {
            user: self.user@,
            num_messages: self.num_messages,
            num_words: self.num_words,
            first_message: self.first_message,
            percent_messages: self.percent_messages,
            percent_words: self.percent_words,
        }
    }
}

/// The statistics `stats` as mathematical values.
pub open spec fn stat_views(stats: Seq<Stat>) -> Seq<StatView> {
    stats.map_values(|s: Stat| s@)
}

/// The number of messages of `ms` that `user` wrote.
pub open spec fn message_count(ms: Seq<MessageView>, user: Seq<char>) -> nat
    decreases ms.len(),
{
    if ms.len() == 0 {
        0
    } else {
        message_count(ms.drop_last(), user) + if ms.last().author == user {
            1nat
        } else {
            0nat
        }
    }
}

/// The number of words in the messages of `ms` that `user` wrote.
pub open spec fn word_sum(ms: Seq<MessageView>, user: Seq<char>) -> nat
    decreases ms.len(),
{
    if ms.len() == 0 {
        0
    } else {
        word_sum(ms.drop_last(), user) + if ms.last().author == user {
            word_count(ms.last().text)
        } else {
            0nat
        }
    }
}

/// The authors of `ms`, each once, in the order in which they first write.
pub open spec fn authors(ms: Seq<MessageView>) -> Seq<Seq<char>>
    decreases ms.len(),
{
    if ms.len() == 0 {
        Seq::empty()
    } else {
        let before = authors(ms.drop_last());
        if before.contains(ms.last().author) {
            before
        } else {
            before.push(ms.last().author)
        }
    }
}

/// `t` is the earliest instant of the messages of `ms` that `user` wrote: one
/// of them has it, and none of them is before it.
pub open spec fn is_earliest(ms: Seq<MessageView>, user: Seq<char>, t: Timestamp) -> bool {
    &&& exists|i: int|
        0 <= i < ms.len() && (#[trigger] ms[i]).author == user && ms[i].timestamp == t
    &&& forall|i: int|
        0 <= i < ms.len() && (#[trigger] ms[i]).author == user ==> t.not_after(ms[i].timestamp)
}

/// The earliest instant of the messages of `ms` that `user` wrote.
pub open spec fn earliest(ms: Seq<MessageView>, user: Seq<char>) -> Timestamp {
    choose|t: Timestamp| is_earliest(ms, user, t)
}

/// The statistics of `user` over the messages `ms`: the counts of the
/// author's messages and of their words, the earliest instant among them, and
/// both counts as shares of the totals of `ms`.
pub open spec fn stat_of(ms: Seq<MessageView>, user: Seq<char>) -> StatView {
    StatView {
        user,
        num_messages: message_count(ms, user) as u64,
        num_words: word_sum(ms, user) as u64,
        first_message: earliest(ms, user),
        percent_messages: Percent {
            part: message_count(ms, user) as u64,
            whole: ms.len() as u64,
        },
        percent_words: Percent { part: word_sum(ms, user) as u64, whole: total_words(ms) as u64 },
    }
}

/// The statistics of the messages `ms`: one entry for each author, in the
/// order in which the authors first write.
pub open spec fn stats_of(ms: Seq<MessageView>) -> Seq<StatView> {
    authors(ms).map_values(|user: Seq<char>| stat_of(ms, user))
}

/// `s` holds what `user` has sent in `ms`.
spec fn tallies(s: StatView, ms: Seq<MessageView>, user: Seq<char>) -> bool {
    &&& s.user == user
    &&& s.num_messages == message_count(ms, user)
    &&& s.num_words == word_sum(ms, user)
    &&& is_earliest(ms, user, s.first_message)
}

/// The shares of `s` are its counts over the totals `messages` and `words`.
spec fn shares(s: StatView, messages: nat, words: nat) -> bool {
    &&& s.percent_messages.part == s.num_messages
    &&& s.percent_messages.whole == messages
    &&& s.percent_words.part == s.num_words
    &&& s.percent_words.whole == words
}

/// The sum of the message counts of `stats`.
pub open spec fn sum_messages(stats: Seq<StatView>) -> nat
    decreases stats.len(),
{
    if stats.len() == 0 {
        0
    } else {
        sum_messages(stats.drop_last()) + stats.last().num_messages as nat
    }
}

/// The sum of the word counts of `stats`.
pub open spec fn sum_words(stats: Seq<StatView>) -> nat
    decreases stats.len(),
{
    if stats.len() == 0 {
        0
    } else {
        sum_words(stats.drop_last()) + stats.last().num_words as nat
    }
}

/// The shares of `stats` are shares of what all of `stats` have sent: each
/// part is the count of its entry, and each whole is the sum of the counts of
/// all entries, so that the shares of all entries make up the whole.
pub open spec fn shares_complete(stats: Seq<StatView>) -> bool {
    forall|k: int|
        0 <= k < stats.len() ==> {
            &&& (#[trigger] stats[k]).percent_messages.part == stats[k].num_messages
            &&& stats[k].percent_messages.whole == sum_messages(stats)
            &&& stats[k].percent_words.part == stats[k].num_words
            &&& stats[k].percent_words.whole == sum_words(stats)
        }
}

/// The messages of one author have one earliest instant only.
pub proof fn lemma_earliest_unique(
    ms: Seq<MessageView>,
    user: Seq<char>,
    t1: Timestamp,
    t2: Timestamp,
)
    requires
        is_earliest(ms, user, t1),
        is_earliest(ms, user, t2),
    ensures
        t1 == t2,
{
    let i = choose|i: int|
        0 <= i < ms.len() && (#[trigger] ms[i]).author == user && ms[i].timestamp == t1;
    let j = choose|j: int|
        0 <= j < ms.len() && (#[trigger] ms[j]).author == user && ms[j].timestamp == t2;
    assert(t2.not_after(ms[i].timestamp));
    assert(t1.not_after(ms[j].timestamp));
}

/// An author has at most as many messages as there are, and at most as
/// many words.
pub proof fn lemma_count_bounds(ms: Seq<MessageView>, user: Seq<char>)
    ensures
        message_count(ms, user) <= ms.len(),
        word_sum(ms, user) <= total_words(ms),
    decreases ms.len(),
{
    if ms.len() > 0 {
        lemma_count_bounds(ms.drop_last(), user);
    }
}

/// The first `n` messages hold at most as many words as all.
pub proof fn lemma_total_words_prefix(ms: Seq<MessageView>, n: int)
    requires
        0 <= n <= ms.len(),
    ensures
        total_words(ms.take(n)) <= total_words(ms),
    decreases ms.len(),
{
    if n < ms.len() {
        assert(ms.drop_last().take(n) =~= ms.take(n));
        lemma_total_words_prefix(ms.drop_last(), n);
    } else {
        assert(ms.take(n) =~= ms);
    }
}

/// An author is among the authors of `ms` exactly if some message of `ms` is
/// theirs.
pub proof fn lemma_authors_contains(ms: Seq<MessageView>, user: Seq<char>)
    ensures
        authors(ms).contains(user) <==> exists|i: int|
            0 <= i < ms.len() && (#[trigger] ms[i]).author == user,
    decreases ms.len(),
{
    if ms.len() > 0 {
        let rest = ms.drop_last();
        lemma_authors_contains(rest, user);
        let before = authors(rest);
        if authors(ms).contains(user) {
            if before.contains(user) {
                let i = choose|i: int| 0 <= i < rest.len() && (#[trigger] rest[i]).author == user;
                assert(ms[i].author == user);
            } else {
                let k = choose|k: int| 0 <= k < authors(ms).len() && authors(ms)[k] == user;
                assert(ms[ms.len() - 1].author == user);
            }
        }
        if exists|i: int| 0 <= i < ms.len() && (#[trigger] ms[i]).author == user {
            let i = choose|i: int| 0 <= i < ms.len() && (#[trigger] ms[i]).author == user;
            if i < rest.len() {
                assert(rest[i].author == user);
                assert(before.contains(user));
                if !before.contains(ms.last().author) {
                    assert(before.push(ms.last().author)[before.index_of(user)] == user);
                }
            } else {
                if !before.contains(ms.last().author) {
                    assert(before.push(ms.last().author)[before.len() as int] == user);
                }
            }
        }
    }
}

/// No author occurs twice among the authors of `ms`.
pub proof fn lemma_authors_distinct(ms: Seq<MessageView>)
    ensures
        authors(ms).no_duplicates(),
    decreases ms.len(),
{
    if ms.len() > 0 {
        lemma_authors_distinct(ms.drop_last());
    }
}

proof fn lemma_sum_update(stats: Seq<StatView>, k: int, s: StatView)
    requires
        0 <= k < stats.len(),
    ensures
        sum_messages(stats.update(k, s)) == sum_messages(stats) - stats[k].num_messages
            + s.num_messages,
        sum_words(stats.update(k, s)) == sum_words(stats) - stats[k].num_words + s.num_words,
    decreases stats.len(),
{
    let after = stats.update(k, s);
    if k == stats.len() - 1 {
        assert(after.drop_last() =~= stats.drop_last());
    } else {
        assert(after.drop_last() =~= stats.drop_last().update(k, s));
        lemma_sum_update(stats.drop_last(), k, s);
    }
}

fn find_user(stats: &Vec<Stat>, user: &String) -> (r: Option<usize>)
    ensures
        match r {
            Some(k) => k < stats@.len() && stats@[k as int].user@ == user@,
            None => forall|k: int| 0 <= k < stats@.len() ==> (#[trigger] stats@[k]).user@ != user@,
        },
{
    let mut k: usize = 0;
    while k < stats.len()
        invariant
            k <= stats@.len(),
            forall|j: int| 0 <= j < k ==> (#[trigger] stats@[j]).user@ != user@,
        decreases stats@.len() - k,
    {
        if stats[k].user == *user {
            return Some(k);
        }
        k += 1;
    }
    None
}

/// The number of words in all of `messages`, or `None` where it is above
/// `u64::MAX`.
pub fn count_all_words(messages: &[Message]) -> (r: Option<u64>)
    ensures
        match r {
            Some(n) => n == total_words(views(messages@)),
            None => total_words(views(messages@)) > u64::MAX,
        },
{
    let ghost ms = views(messages@);
    let n = messages.len();
    let mut total: u64 = 0;
    let mut i: usize = 0;
    while i < n
        invariant
            i <= n == messages@.len(),
            ms == views(messages@),
            total == total_words(ms.take(i as int)),
        decreases n - i,
    {
        let w = count_words(messages[i].text.as_str());
        proof {
            assert(ms.take(i + 1).drop_last() =~= ms.take(i as int));
            lemma_total_words_prefix(ms, i + 1);
        }
        match total.checked_add(w as u64) {
            Some(sum) => {
                total = sum;
            },
            None => {
                return None;
            },
        }
        i += 1;
    }
    proof {
        assert(ms.take(n as int) =~= ms);
    }
    Some(total)
}

/// Computes the statistics of `messages`: one entry for each author, in the
/// order in which the authors first write. The counts of all entries add up
/// to the number of messages and to the number of their words, and so the
/// shares of all entries make up the whole.
pub fn compute_stats(messages: &[Message]) -> (stats: Vec<Stat>)
    requires
        total_words(views(messages@)) <= u64::MAX,
    ensures
        stat_views(stats@) == stats_of(views(messages@)),
        sum_messages(stat_views(stats@)) == messages@.len(),
        sum_words(stat_views(stats@)) == total_words(views(messages@)),
        shares_complete(stat_views(stats@)),
{
    let ghost ms = views(messages@);
    let n = messages.len();
    let total = count_all_words(messages).unwrap();
    let mut stats: Vec<Stat> = Vec::new();
    let mut i: usize = 0;
    while i < n
        invariant
            i <= n == messages@.len(),
            ms == views(messages@),
            total == total_words(ms),
            stats@.len() == authors(ms.take(i as int)).len(),
            forall|k: int|
                0 <= k < stats@.len() ==> {
                    &&& tallies(
                        (#[trigger] stats@[k])@,
                        ms.take(i as int),
                        authors(ms.take(i as int))[k],
                    )
                    &&& shares(stats@[k]@, n as nat, total as nat)
                },
            sum_messages(stat_views(stats@)) == i,
            sum_words(stat_views(stats@)) == total_words(ms.take(i as int)),
        decreases n - i,
    {
        let m = &messages[i];
        let w = count_words(m.text.as_str()) as u64;
        let ghost seen = ms.take(i as int);
        let ghost next = ms.take(i + 1);
        let ghost before = stats@;
        proof {
            assert(next.drop_last() =~= seen);
            assert(next.last() == m@);
            lemma_total_words_prefix(ms, i + 1);
            lemma_authors_contains(seen, m@.author);
        }
        match find_user(&stats, &m.author) {
            Some(k) => {
                proof {
                    lemma_count_bounds(next, m@.author);
                    assert(authors(seen)[k as int] == m@.author);
                    assert(authors(next) == authors(seen));
                }
                stats[k].num_messages += 1;
                stats[k].num_words += w;
                if m.timestamp.is_earlier(&stats[k].first_message) {
                    stats[k].first_message = m.timestamp;
                }
                stats[k].percent_messages.part = stats[k].num_messages;
                stats[k].percent_words.part = stats[k].num_words;
                proof {
                    assert(stats@ =~= before.update(k as int, stats@[k as int]));
                    assert(stat_views(stats@) =~= stat_views(before).update(
                        k as int,
                        stats@[k as int]@,
                    ));
                    lemma_sum_update(stat_views(before), k as int, stats@[k as int]@);
                    lemma_earliest_same(next, m@.author, before[k as int].first_message);
                    assert forall|j: int| 0 <= j < stats@.len() implies tallies(
                        (#[trigger] stats@[j])@,
                        next,
                        authors(next)[j],
                    ) by {
                        if j != k {
                            assert(stats@[j] == before[j]);
                            assert(tallies(before[j]@, seen, authors(seen)[j]));
                            lemma_authors_distinct(seen);
                            lemma_earliest_other(next, authors(seen)[j], before[j].first_message);
                        }
                    }
                }
            },
            None => {
                proof {
                    assert(!authors(seen).contains(m@.author)) by {
                        if authors(seen).contains(m@.author) {
                            let j = authors(seen).index_of(m@.author);
                            assert(stats@[j].user@ == m@.author);
                        }
                    }
                    assert(authors(next) == authors(seen).push(m@.author));
                    lemma_count_zero(seen, m@.author);
                    lemma_count_bounds(next, m@.author);
                }
                stats.push(
                    Stat {
                        user: m.author.clone(),
                        num_messages: 1,
                        num_words: w,
                        first_message: m.timestamp,
                        percent_messages: Percent { part: 1, whole: n as u64 },
                        percent_words: Percent { part: w, whole: total },
                    },
                );
                proof {
                    assert(stats@.drop_last() =~= before);
                    assert(stat_views(stats@).drop_last() =~= stat_views(before));
                    assert(next[i as int] == m@);
                    assert forall|j: int| 0 <= j < stats@.len() implies tallies(
                        (#[trigger] stats@[j])@,
                        next,
                        authors(next)[j],
                    ) by {
                        if j < before.len() {
                            assert(stats@[j] == before[j]);
                            assert(tallies(before[j]@, seen, authors(seen)[j]));
                            assert(before[j].user@ != m@.author);
                            lemma_earliest_other(next, authors(seen)[j], before[j].first_message);
                        } else {
                            assert(next[i as int].author == m@.author);
                            assert forall|l: int|
                                0 <= l < next.len() && (#[trigger] next[l]).author
                                    == m@.author implies m@.timestamp.not_after(
                                next[l].timestamp,
                            ) by {
                                if l < i {
                                    assert(seen[l].author != m@.author);
                                }
                            }
                        }
                    }
                }
            },
        }
        i += 1;
    }
    proof {
        assert(ms.take(n as int) =~= ms);
        assert forall|k: int| 0 <= k < stats@.len() implies stat_views(stats@)[k] == stats_of(
            ms,
        )[k] by {
            let user = authors(ms)[k];
            assert(tallies(stats@[k]@, ms, user));
            lemma_earliest_unique(ms, user, stats@[k].first_message, earliest(ms, user));
        }
        assert(stat_views(stats@) =~= stats_of(ms));
    }
    stats
}

/// A message of another author leaves the earliest instant as it is.
proof fn lemma_earliest_other(ms: Seq<MessageView>, user: Seq<char>, t: Timestamp)
    requires
        ms.len() > 0,
        ms.last().author != user,
        is_earliest(ms.drop_last(), user, t),
    ensures
        is_earliest(ms, user, t),
{
    let rest = ms.drop_last();
    let i = choose|i: int|
        0 <= i < rest.len() && (#[trigger] rest[i]).author == user && rest[i].timestamp == t;
    assert(ms[i].author == user && ms[i].timestamp == t);
    assert forall|j: int| 0 <= j < ms.len() && (#[trigger] ms[j]).author == user implies t.not_after(
        ms[j].timestamp,
    ) by {
        assert(rest[j].author == user);
    }
}

/// A further message of the author moves the earliest instant to the earlier
/// of the two.
proof fn lemma_earliest_same(ms: Seq<MessageView>, user: Seq<char>, t: Timestamp)
    requires
        ms.len() > 0,
        ms.last().author == user,
        is_earliest(ms.drop_last(), user, t),
    ensures
        is_earliest(
            ms,
            user,
            if ms.last().timestamp.earlier(t) {
                ms.last().timestamp
            } else {
                t
            },
        ),
{
    let rest = ms.drop_last();
    let last = ms.last().timestamp;
    let e = if last.earlier(t) {
        last
    } else {
        t
    };
    let i = choose|i: int|
        0 <= i < rest.len() && (#[trigger] rest[i]).author == user && rest[i].timestamp == t;
    assert(ms[i].author == user && ms[i].timestamp == t);
    assert(ms[ms.len() - 1].timestamp == last);
    assert forall|j: int| 0 <= j < ms.len() && (#[trigger] ms[j]).author == user implies e.not_after(
        ms[j].timestamp,
    ) by {
        if j < rest.len() {
            assert(rest[j].author == user);
            assert(t.not_after(rest[j].timestamp));
        }
    }
}

/// An author who is not among the authors of `ms` has no message in it.
proof fn lemma_count_zero(ms: Seq<MessageView>, user: Seq<char>)
    requires
        !authors(ms).contains(user),
    ensures
        message_count(ms, user) == 0,
        word_sum(ms, user) == 0,
        forall|i: int| 0 <= i < ms.len() ==> (#[trigger] ms[i]).author != user,
    decreases ms.len(),
{
    lemma_authors_contains(ms, user);
    if ms.len() > 0 {
        let rest = ms.drop_last();
        lemma_authors_contains(rest, user);
        assert(!authors(rest).contains(user)) by {
            if authors(rest).contains(user) {
                let i = choose|i: int| 0 <= i < rest.len() && (#[trigger] rest[i]).author == user;
                assert(ms[i].author == user);
            }
        }
        lemma_count_zero(rest, user);
        assert(ms[ms.len() - 1].author != user);
    }
}

/// Every author of `ms` has an earliest instant: the first-message instant of
/// the author's statistics is the instant of one of the author's messages,
/// and none of the author's messages is before it.
pub proof fn lemma_first_message_earliest(ms: Seq<MessageView>, user: Seq<char>)
    requires
        authors(ms).contains(user),
    ensures
        is_earliest(ms, user, stat_of(ms, user).first_message),
    decreases ms.len(),
{
    lemma_authors_contains(ms, user);
    let rest = ms.drop_last();
    lemma_authors_contains(rest, user);
    if authors(rest).contains(user) {
        lemma_first_message_earliest(rest, user);
        let t = earliest(rest, user);
        if ms.last().author == user {
            lemma_earliest_same(ms, user, t);
        } else {
            lemma_earliest_other(ms, user, t);
        }
    } else {
        lemma_count_zero(rest, user);
        let t = ms.last().timestamp;
        assert(ms[ms.len() - 1].author == user) by {
            let i = choose|i: int| 0 <= i < ms.len() && (#[trigger] ms[i]).author == user;
            if i < rest.len() {
                assert(rest[i].author == user);
            }
        }
        assert forall|j: int| 0 <= j < ms.len() && (#[trigger] ms[j]).author == user implies t.not_after(
            ms[j].timestamp,
        ) by {
            if j < rest.len() {
                assert(rest[j].author == user);
            }
        }
        assert(is_earliest(ms, user, t));
    }
}

proof fn lemma_remove_counts(ms: Seq<MessageView>, j: int, user: Seq<char>)
    requires
        0 <= j < ms.len(),
    ensures
        message_count(ms, user) == message_count(ms.remove(j), user) + if ms[j].author == user {
            1nat
        } else {
            0nat
        },
        word_sum(ms, user) == word_sum(ms.remove(j), user) + if ms[j].author == user {
            word_count(ms[j].text)
        } else {
            0nat
        },
        total_words(ms) == total_words(ms.remove(j)) + word_count(ms[j].text),
    decreases ms.len(),
{
    if j == ms.len() - 1 {
        assert(ms.remove(j) =~= ms.drop_last());
    } else {
        assert(ms.remove(j).drop_last() =~= ms.drop_last().remove(j));
        assert(ms.remove(j).last() == ms.last());
        lemma_remove_counts(ms.drop_last(), j, user);
    }
}

proof fn lemma_counts_rearranged(a: Seq<MessageView>, b: Seq<MessageView>, user: Seq<char>)
    requires
        a.to_multiset() == b.to_multiset(),
    ensures
        a.len() == b.len(),
        message_count(a, user) == message_count(b, user),
        word_sum(a, user) == word_sum(b, user),
        total_words(a) == total_words(b),
    decreases a.len(),
{
    to_multiset_len(a);
    to_multiset_len(b);
    if a.len() > 0 {
        let n = a.len() - 1;
        let x = a[n];
        to_multiset_contains(a, x);
        to_multiset_contains(b, x);
        assert(a.contains(x));
        let j = b.index_of(x);
        to_multiset_remove(a, n);
        to_multiset_remove(b, j);
        assert(a.remove(n) =~= a.drop_last());
        lemma_counts_rearranged(a.drop_last(), b.remove(j), user);
        lemma_remove_counts(b, j, user);
    }
}

proof fn lemma_earliest_rearranged(
    a: Seq<MessageView>,
    b: Seq<MessageView>,
    user: Seq<char>,
    t: Timestamp,
)
    requires
        a.to_multiset() == b.to_multiset(),
        is_earliest(a, user, t),
    ensures
        is_earliest(b, user, t),
{
    let i = choose|i: int|
        0 <= i < a.len() && (#[trigger] a[i]).author == user && a[i].timestamp == t;
    to_multiset_contains(a, a[i]);
    to_multiset_contains(b, a[i]);
    assert(a.contains(a[i]));
    let k = b.index_of(a[i]);
    assert(b[k].author == user && b[k].timestamp == t);
    assert forall|j: int| 0 <= j < b.len() && (#[trigger] b[j]).author == user implies t.not_after(
        b[j].timestamp,
    ) by {
        to_multiset_contains(a, b[j]);
        to_multiset_contains(b, b[j]);
        assert(b.contains(b[j]));
        let l = a.index_of(b[j]);
        assert(a[l].author == user);
    }
}

/// The statistics of an author do not depend on the order of the messages:
/// where `b` holds the messages of `a` in another order, every author of `a`
/// is an author of `b` and has the same statistics over both.
pub proof fn lemma_order_independent(a: Seq<MessageView>, b: Seq<MessageView>, user: Seq<char>)
    requires
        a.to_multiset() == b.to_multiset(),
        authors(a).contains(user),
    ensures
        authors(b).contains(user),
        stat_of(a, user) == stat_of(b, user),
{
    lemma_counts_rearranged(a, b, user);
    lemma_first_message_earliest(a, user);
    lemma_earliest_rearranged(a, b, user, earliest(a, user));
    lemma_earliest_unique(b, user, earliest(a, user), earliest(b, user));
    lemma_authors_contains(a, user);
    lemma_authors_contains(b, user);
    let i = choose|i: int|
        0 <= i < b.len() && (#[trigger] b[i]).author == user && b[i].timestamp == earliest(
            a,
            user,
        );
    assert(b[i].author == user);
}

/// Computes the statistics of `messages` as [`compute_stats`] does, or gives
/// `None` where the number of their words is above `u64::MAX`.
pub fn checked_stats(messages: &[Message]) -> (r: Option<Vec<Stat>>)
    ensures
        match r {
            Some(stats) => {
                &&& total_words(views(messages@)) <= u64::MAX
                &&& stat_views(stats@) == stats_of(views(messages@))
                &&& sum_messages(stat_views(stats@)) == messages@.len()
                &&& sum_words(stat_views(stats@)) == total_words(views(messages@))
                &&& shares_complete(stat_views(stats@))
            },
            None => total_words(views(messages@)) > u64::MAX,
        },
{
    match count_all_words(messages) {
        Some(_) => Some(compute_stats(messages)),
        None => None,
    }
}

} // verus!
