//! Messages and statistics by calendar year.

use crate::extract::{total_words, views, Message, MessageView};
use crate::stats::{compute_stats, stat_views, stats_of, Stat};
use vstd::prelude::*;

verus! {

/// The messages of `ms` whose instant lies in the year `year`, in their
/// order.
pub open spec fn in_year(ms: Seq<MessageView>, year: int) -> Seq<MessageView>
    decreases ms.len(),
{
    if ms.len() == 0 {
        Seq::empty()
    } else if ms.last().timestamp.year == year {
        in_year(ms.drop_last(), year).push(ms.last())
    } else {
        in_year(ms.drop_last(), year)
    }
}

/// One of the first `n` messages of `ms` lies in the year `year`.
pub open spec fn year_seen(ms: Seq<MessageView>, n: int, year: int) -> bool {
    exists|i: int| 0 <= i < n && i < ms.len() && (#[trigger] ms[i]).timestamp.year == year
}

/// Each year of `years` is less than the next.
pub open spec fn ascending(years: Seq<i32>) -> bool {
    forall|i: int, j: int| 0 <= i < j < years.len() ==> years[i] < years[j]
}

/// `years` are the years of the messages `ms`, each once, in ascending order.
pub open spec fn are_years_of(years: Seq<i32>, ms: Seq<MessageView>) -> bool {
    &&& ascending(years)
    &&& forall|y: i32| years.contains(y) <==> year_seen(ms, ms.len() as int, y as int)
}

/// The years of the messages `ms`, each once, in ascending order.
pub open spec fn years_of(ms: Seq<MessageView>) -> Seq<i32> {
    choose|years: Seq<i32>| are_years_of(years, ms)
}

/// Two ascending sequences with the same years are the same sequence.
pub proof fn lemma_years_unique(a: Seq<i32>, b: Seq<i32>)
    requires
        ascending(a),
        ascending(b),
        forall|y: i32| a.contains(y) <==> b.contains(y),
    ensures
        a == b,
    decreases a.len(),
{
    if a.len() == 0 {
        if b.len() > 0 {
            assert(b.contains(b[0]));
        }
        assert(a =~= b);
    } else {
        let x = a.last();
        assert(a.contains(x));
        assert(b.contains(x));
        let y = b.last();
        assert(b.contains(y));
        assert(a.contains(y));
        let i = a.index_of(y);
        let j = b.index_of(x);
        assert(x == y);
        let a0 = a.drop_last();
        let b0 = b.drop_last();
        assert forall|z: i32| a0.contains(z) <==> b0.contains(z) by {
            if a0.contains(z) {
                let k = a0.index_of(z);
                assert(a[k] == z);
                assert(a.contains(z));
                let l = b.index_of(z);
                assert(z < x);
                assert(b0[l] == z);
            }
            if b0.contains(z) {
                let k = b0.index_of(z);
                assert(b[k] == z);
                assert(b.contains(z));
                let l = a.index_of(z);
                assert(z < y);
                assert(a0[l] == z);
            }
        }
        lemma_years_unique(a0, b0);
        assert(a =~= a0.push(x));
        assert(b =~= b0.push(y));
    }
}

/// The messages of one year.
#[derive(Clone, Debug)]
pub struct YearGroup {
    pub year: i32,
    pub messages: Vec<Message>,
}

/// The statistics of one year.
#[derive(Clone, Debug)]
pub struct YearStats {
    pub year: i32,
    pub stats: Vec<Stat>,
}

/// The messages of one year are at most as many as all, and hold at most as
/// many words.
pub proof fn lemma_in_year_words(ms: Seq<MessageView>, year: int)
    ensures
        total_words(in_year(ms, year)) <= total_words(ms),
        in_year(ms, year).len() <= ms.len(),
    decreases ms.len(),
{
    if ms.len() > 0 {
        lemma_in_year_words(ms.drop_last(), year);
        if ms.last().timestamp.year == year {
            assert(in_year(ms, year).drop_last() =~= in_year(ms.drop_last(), year));
        }
    }
}

/// Puts `year` into the ascending `years`, unless it is there.
fn insert_year(years: &mut Vec<i32>, year: i32)
    requires
        ascending(old(years)@),
    ensures
        ascending(final(years)@),
        forall|y: i32| final(years)@.contains(y) <==> old(years)@.contains(y) || y == year,
{
    let mut p: usize = 0;
    while p < years.len() && years[p] < year
        invariant
            p <= years@.len(),
            years@ == old(years)@,
            forall|j: int| 0 <= j < p ==> years@[j] < year,
        decreases years@.len() - p,
    {
        p += 1;
    }
    if p < years.len() && years[p] == year {
        assert(years@.contains(year));
        return ;
    }
    let ghost before = years@;
    years.insert(p, year);
    proof {
        assert(years@[p as int] == year);
        assert forall|y: i32| years@.contains(y) <==> before.contains(y) || y == year by {
            if years@.contains(y) {
                let i = years@.index_of(y);
                if i < p {
                    assert(before[i] == y);
                } else if i > p {
                    assert(before[i - 1] == y);
                }
            }
            if before.contains(y) {
                let i = before.index_of(y);
                if i < p {
                    assert(years@[i] == y);
                } else {
                    assert(years@[i + 1] == y);
                }
            }
        }
        assert forall|i: int, j: int| 0 <= i < j < years@.len() implies years@[i] < years@[j] by {
            let a = if i < p { i } else { i - 1 };
            let b = if j < p { j } else { j - 1 };
            if i != p && j != p {
                assert(before[a] < before[b]);
            } else if i == p {
                assert(before[b] >= year);
                assert(before[b] != year) by {
                    if b > p {
                        assert(before[p as int] < before[b]);
                    }
                }
            }
        }
    }
}

/// The years of `messages`, each once, in ascending order.
pub fn message_years(messages: &[Message]) -> (years: Vec<i32>)
    ensures
        are_years_of(years@, views(messages@)),
{
    let ghost ms = views(messages@);
    let mut years: Vec<i32> = Vec::new();
    let mut i: usize = 0;
    while i < messages.len()
        invariant
            i <= messages@.len(),
            ms == views(messages@),
            ascending(years@),
            forall|y: i32| years@.contains(y) <==> year_seen(ms, i as int, y as int),
        decreases messages@.len() - i,
    {
        let ghost before = years@;
        let year = messages[i].timestamp.year;
        insert_year(&mut years, year);
        proof {
            assert(ms[i as int].timestamp.year == year);
            assert forall|y: i32| years@.contains(y) <==> year_seen(ms, i + 1, y as int) by {
                if year_seen(ms, i + 1, y as int) {
                    let j = choose|j: int|
                        0 <= j < i + 1 && j < ms.len() && (#[trigger] ms[j]).timestamp.year == y;
                    if j < i {
                        assert(year_seen(ms, i as int, y as int));
                    }
                }
                if before.contains(y) {
                    assert(year_seen(ms, i as int, y as int));
                    let j = choose|j: int|
                        0 <= j < i && j < ms.len() && (#[trigger] ms[j]).timestamp.year == y;
                    assert(ms[j].timestamp.year == y);
                }
            }
        }
        i += 1;
    }
    years
}

/// The messages of `messages` that lie in the year `year`, in their order.
pub fn messages_in_year(messages: &[Message], year: i32) -> (r: Vec<Message>)
    ensures
        views(r@) == in_year(views(messages@), year as int),
{
    let ghost ms = views(messages@);
    let mut r: Vec<Message> = Vec::new();
    let mut i: usize = 0;
    while i < messages.len()
        invariant
            i <= messages@.len(),
            ms == views(messages@),
            views(r@) == in_year(ms.take(i as int), year as int),
        decreases messages@.len() - i,
    {
        let ghost before = r@;
        proof {
            assert(ms.take(i + 1).drop_last() =~= ms.take(i as int));
        }
        if messages[i].timestamp.year == year {
            r.push(messages[i].duplicate());
            proof {
                assert(views(r@) =~= views(before).push(ms[i as int]));
            }
        }
        i += 1;
    }
    proof {
        assert(ms.take(messages@.len() as int) =~= ms);
    }
    r
}

/// `groups` hold the messages `ms` by year: one group for each year that has
/// a message, in ascending order of the years, each with the messages of its
/// year in their order.
pub open spec fn are_groups_of(groups: Seq<YearGroup>, ms: Seq<MessageView>) -> bool {
    &&& are_years_of(groups.map_values(|g: YearGroup| g.year), ms)
    &&& forall|k: int|
        0 <= k < groups.len() ==> views((#[trigger] groups[k]).messages@) == in_year(
            ms,
            groups[k].year as int,
        )
}

/// Groups `messages` by year.
pub fn group_by_year(messages: &[Message]) -> (groups: Vec<YearGroup>)
    ensures
        are_groups_of(groups@, views(messages@)),
{
    let ghost ms = views(messages@);
    let years = message_years(messages);
    let mut groups: Vec<YearGroup> = Vec::new();
    let mut k: usize = 0;
    while k < years.len()
        invariant
            k <= years@.len(),
            ms == views(messages@),
            groups@.map_values(|g: YearGroup| g.year) == years@.take(k as int),
            forall|j: int|
                0 <= j < groups@.len() ==> views((#[trigger] groups@[j]).messages@) == in_year(
                    ms,
                    groups@[j].year as int,
                ),
        decreases years@.len() - k,
    {
        let ghost before = groups@;
        let year = years[k];
        let group = YearGroup { year, messages: messages_in_year(messages, year) };
        groups.push(group);
        proof {
            assert(groups@.map_values(|g: YearGroup| g.year) =~= before.map_values(
                |g: YearGroup| g.year,
            ).push(year));
            assert(years@.take(k + 1) =~= years@.take(k as int).push(year));
        }
        k += 1;
    }
    proof {
        assert(years@.take(years@.len() as int) =~= years@);
    }
    groups
}

/// `all` hold the statistics of the messages `ms` by year: one entry for each
/// year that has a message, in ascending order of the years, each with the
/// statistics of the messages of its year.
pub open spec fn are_year_stats_of(all: Seq<YearStats>, ms: Seq<MessageView>) -> bool {
    &&& are_years_of(all.map_values(|g: YearStats| g.year), ms)
    &&& forall|k: int|
        0 <= k < all.len() ==> stat_views((#[trigger] all[k]).stats@) == stats_of(
            in_year(ms, all[k].year as int),
        )
}

/// Computes the statistics of each year of `messages`. The shares of a year
/// are shares of that year's totals.
pub fn stats_by_year(messages: &[Message]) -> (all: Vec<YearStats>)
    requires
        total_words(views(messages@)) <= u64::MAX,
    ensures
        are_year_stats_of(all@, views(messages@)),
{
    let ghost ms = views(messages@);
    let groups = group_by_year(messages);
    let ghost years = groups@.map_values(|g: YearGroup| g.year);
    let mut all: Vec<YearStats> = Vec::new();
    let mut k: usize = 0;
    while k < groups.len()
        invariant
            k <= groups@.len(),
            ms == views(messages@),
            total_words(ms) <= u64::MAX,
            are_groups_of(groups@, ms),
            years == groups@.map_values(|g: YearGroup| g.year),
            all@.map_values(|g: YearStats| g.year) == years.take(k as int),
            forall|j: int|
                0 <= j < all@.len() ==> stat_views((#[trigger] all@[j]).stats@) == stats_of(
                    in_year(ms, all@[j].year as int),
                ),
        decreases groups@.len() - k,
    {
        let ghost before = all@;
        let year = groups[k].year;
        proof {
            lemma_in_year_words(ms, year as int);
        }
        let stats = compute_stats(groups[k].messages.as_slice());
        all.push(YearStats { year, stats });
        proof {
            assert(all@.map_values(|g: YearStats| g.year) =~= before.map_values(
                |g: YearStats| g.year,
            ).push(year));
            assert(years.take(k + 1) =~= years.take(k as int).push(year));
        }
        k += 1;
    }
    proof {
        assert(years.take(years.len() as int) =~= years);
    }
    all
}

} // verus!
