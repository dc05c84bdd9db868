//! The order in which statistics are presented: the greater count first, and
//! among equal counts the author whose name comes first.

use crate::stats::{stat_views, Stat, StatView};
use crate::text::{is_text_before, lemma_text_order, text_before};
use vstd::multiset::Multiset;
use vstd::prelude::*;
use vstd::seq_lib::{
    to_multiset_build, to_multiset_contains, to_multiset_insert, to_multiset_len,
    to_multiset_remove,
};

verus! {

/// The count by which statistics are ordered.
#[derive(Clone, Copy, Debug, PartialEq, Eq, Structural)]
pub enum SortBy {
    /// By the number of messages.
    Messages,
    /// By the number of words.
    Words,
}

/// The count of `s` that `by` names.
pub open spec fn sort_key(s: StatView, by: SortBy) -> u64 {
    match by {
        SortBy::Messages => s.num_messages,
        SortBy::Words => s.num_words,
    }
}

/// `a` must stand before `b`: its count is greater, or the counts are equal
/// and its author comes first in the order of texts.
pub open spec fn precedes(a: StatView, b: StatView, by: SortBy) -> bool {
    ||| sort_key(a, by) > sort_key(b, by)
    ||| sort_key(a, by) == sort_key(b, by) && text_before(a.user, b.user)
}

/// No entry of `stats` stands behind one that it must stand before.
pub open spec fn is_sorted(stats: Seq<StatView>, by: SortBy) -> bool {
    forall|i: int, j: int| 0 <= i < j < stats.len() ==> !precedes(stats[j], stats[i], by)
}

/// `ordered` holds the entries of `stats`, each as often as `stats` does, in
/// the order that `by` asks for.
pub open spec fn is_ordering_of(ordered: Seq<StatView>, stats: Seq<StatView>, by: SortBy) -> bool {
    ordered.to_multiset() == stats.to_multiset() && is_sorted(ordered, by)
}

/// No two entries of `stats` are of the same author.
pub open spec fn distinct_users(stats: Seq<StatView>) -> bool {
    forall|i: int, j: int| 0 <= i < j < stats.len() ==> stats[i].user != stats[j].user
}

/// The entries of `stats` in the order that `by` asks for.
pub open spec fn ordered(stats: Seq<StatView>, by: SortBy) -> Seq<StatView> {
    choose|o: Seq<StatView>| is_ordering_of(o, stats, by)
}

/// Of two entries of different authors, one must stand before the other, and
/// not both ways; and what must stand before an entry must stand before all
/// that the entry must stand before.
pub proof fn lemma_precedes_order(a: StatView, b: StatView, c: StatView, by: SortBy)
    ensures
        !(precedes(a, b, by) && precedes(b, a, by)),
        precedes(a, b, by) && precedes(b, c, by) ==> precedes(a, c, by),
        a.user != b.user ==> precedes(a, b, by) || precedes(b, a, by),
{
    lemma_text_order(a.user, b.user, c.user);
}

/// The order of presentation is settled by the entries and the count alone:
/// two orderings of the same entries, no two of one author, are the same
/// sequence.
pub proof fn lemma_ordering_unique(a: Seq<StatView>, b: Seq<StatView>, by: SortBy)
    requires
        a.to_multiset() == b.to_multiset(),
        is_sorted(a, by),
        is_sorted(b, by),
        distinct_users(a),
    ensures
        a == b,
    decreases a.len(),
{
    to_multiset_len(a);
    to_multiset_len(b);
    if a.len() > 0 {
        let n = a.len() - 1;
        let x = a[n];
        let y = b[n];
        to_multiset_contains(a, x);
        to_multiset_contains(b, x);
        to_multiset_contains(a, y);
        to_multiset_contains(b, y);
        assert(a.contains(x));
        assert(b.contains(y));
        if x != y {
            let i = a.index_of(y);
            let j = b.index_of(x);
            assert(a[i].user != a[n].user);
            lemma_precedes_order(x, y, x, by);
        }
        to_multiset_remove(a, n);
        to_multiset_remove(b, n);
        assert(a.remove(n) =~= a.drop_last());
        assert(b.remove(n) =~= b.drop_last());
        lemma_ordering_unique(a.drop_last(), b.drop_last(), by);
        assert(a =~= a.drop_last().push(x));
        assert(b =~= b.drop_last().push(y));
    }
}

/// Decides [`precedes`].
pub fn stat_precedes(a: &Stat, b: &Stat, by: SortBy) -> (r: bool)
    ensures
        r == precedes(a@, b@, by),
{
    let (x, y) = match by {
        SortBy::Messages => (a.num_messages, b.num_messages),
        SortBy::Words => (a.num_words, b.num_words),
    };
    if x != y {
        x > y
    } else {
        is_text_before(a.user.as_str(), b.user.as_str())
    }
}

/// Puts `stats` in the order that `by` asks for.
pub fn sort_stats(stats: Vec<Stat>, by: SortBy) -> (sorted: Vec<Stat>)
    ensures
        is_ordering_of(stat_views(sorted@), stat_views(stats@), by),
{
    let ghost all = stat_views(stats@);
    let mut rest = stats;
    let mut sorted: Vec<Stat> = Vec::new();
    proof {
        to_multiset_len(stat_views(sorted@));
        assert(stat_views(sorted@).to_multiset() =~= Multiset::<StatView>::empty());
        assert(stat_views(sorted@).to_multiset().add(stat_views(rest@).to_multiset())
            =~= all.to_multiset());
    }
    while rest.len() > 0
        invariant
            stat_views(sorted@).to_multiset().add(stat_views(rest@).to_multiset())
                == all.to_multiset(),
            is_sorted(stat_views(sorted@), by),
        decreases rest@.len(),
    {
        let ghost rest_before = stat_views(rest@);
        let ghost before = stat_views(sorted@);
        let x = rest.pop().unwrap();
        let mut p: usize = 0;
        while p < sorted.len() && !stat_precedes(&x, &sorted[p], by)
            invariant
                p <= sorted@.len(),
                before == stat_views(sorted@),
                forall|j: int| 0 <= j < p ==> !precedes(x@, before[j], by),
            decreases sorted@.len() - p,
        {
            p += 1;
        }
        sorted.insert(p, x);
        proof {
            let after = stat_views(sorted@);
            assert(after =~= before.insert(p as int, x@));
            assert(rest_before =~= stat_views(rest@).push(x@));
            to_multiset_insert(before, p as int, x@);
            to_multiset_build(stat_views(rest@), x@);
            assert(after.to_multiset().add(stat_views(rest@).to_multiset())
                =~= before.to_multiset().add(rest_before.to_multiset()));
            assert forall|i: int, j: int| 0 <= i < j < after.len() implies !precedes(
                after[j],
                after[i],
                by,
            ) by {
                if i == p {
                    assert(after[j] == before[j - 1]);
                    lemma_precedes_order(before[j - 1], x@, before[p as int], by);
                } else if j == p {
                    assert(after[i] == before[i]);
                } else {
                    let a = if i < p { i } else { i - 1 };
                    let b = if j < p { j } else { j - 1 };
                    assert(after[i] == before[a] && after[j] == before[b]);
                }
            }
        }
    }
    proof {
        assert(stat_views(rest@).to_multiset() =~= Multiset::<StatView>::empty()) by {
            to_multiset_len(stat_views(rest@));
            assert(stat_views(rest@).to_multiset().len() == 0);
        }
        assert(stat_views(sorted@).to_multiset() =~= all.to_multiset());
    }
    sorted
}

} // verus!
