use chat_stats::extract::{parse, Message};
use chat_stats::order::{sort_stats, stat_precedes, SortBy};
use chat_stats::stats::{checked_stats, compute_stats, count_all_words, Percent, Stat};
use chat_stats::text::is_text_before;
use chat_stats::timestamp::Timestamp;
use chat_stats::years::{group_by_year, message_years, messages_in_year, stats_by_year};

fn at(year: i32, month: u32, day: u32, hour: u32, minute: u32, second: u32) -> Timestamp {
    Timestamp { year, month, day, hour, minute, second }
}

fn message(author: &str, text: &str, timestamp: Timestamp) -> Message {
    Message { timestamp, author: author.to_string(), text: text.to_string() }
}

fn sample() -> Vec<Message> {
    vec![
        message("Bob", "hi there", at(2024, 1, 2, 9, 6, 0)),
        message("Alice", "first words of alice", at(2024, 1, 2, 9, 7, 0)),
        message("Bob", "", at(2023, 12, 31, 23, 59, 59)),
        message("Carol", "one", at(2024, 1, 2, 9, 6, 0)),
        message("Alice", "again\nalice  here", at(2024, 1, 1, 0, 0, 0)),
        message("Bob", "b c d e", at(2024, 6, 1, 12, 0, 0)),
    ]
}

fn find<'a>(stats: &'a [Stat], user: &str) -> &'a Stat {
    stats.iter().find(|s| s.user == user).expect("the author has statistics")
}

fn users(stats: &[Stat]) -> Vec<String> {
    stats.iter().map(|s| s.user.clone()).collect()
}

#[test]
fn sort_by_words_vs_messages() {
    let t = at(2024, 1, 2, 9, 0, 0);
    let messages = vec![
        message("A", "one two three four five six seven eight nine ten", t),
        message("B", "x", t),
        message("B", "y", t),
        message("B", "z", t),
    ];
    let by_messages = sort_stats(compute_stats(&messages), SortBy::Messages);
    assert_eq!(users(&by_messages), ["B", "A"]);
    let by_words = sort_stats(compute_stats(&messages), SortBy::Words);
    assert_eq!(users(&by_words), ["A", "B"]);
    assert_eq!(find(&by_words, "A").num_words, 10);
    assert_eq!(find(&by_words, "B").num_words, 3);
    assert_eq!(find(&by_words, "A").num_messages, 1);
    assert_eq!(find(&by_words, "B").num_messages, 3);
}

#[test]
fn one_entry_for_each_author_in_order_of_first_message() {
    let stats = compute_stats(&sample());
    assert_eq!(users(&stats), ["Bob", "Alice", "Carol"]);
}

#[test]
fn counts_of_each_author() {
    let stats = compute_stats(&sample());
    let bob = find(&stats, "Bob");
    assert_eq!((bob.num_messages, bob.num_words), (3, 6));
    let alice = find(&stats, "Alice");
    assert_eq!((alice.num_messages, alice.num_words), (2, 7));
    let carol = find(&stats, "Carol");
    assert_eq!((carol.num_messages, carol.num_words), (1, 1));
}

#[test]
fn counts_add_up_to_the_totals() {
    let messages = sample();
    let stats = compute_stats(&messages);
    let all_messages: u64 = stats.iter().map(|s| s.num_messages).sum();
    let all_words: u64 = stats.iter().map(|s| s.num_words).sum();
    assert_eq!(all_messages, messages.len() as u64);
    assert_eq!(all_words, 14);
    assert_eq!(count_all_words(&messages), Some(14));
}

#[test]
fn shares_are_counts_over_totals() {
    let stats = compute_stats(&sample());
    for s in &stats {
        assert_eq!(s.percent_messages, Percent { part: s.num_messages, whole: 6 });
        assert_eq!(s.percent_words, Percent { part: s.num_words, whole: 14 });
    }
    assert_eq!(find(&stats, "Bob").percent_messages.rounded(), 5000);
    assert_eq!(find(&stats, "Alice").percent_messages.rounded(), 3333);
    assert_eq!(find(&stats, "Carol").percent_messages.rounded(), 1667);
    assert_eq!(find(&stats, "Bob").percent_words.rounded(), 4286);
    assert_eq!(find(&stats, "Alice").percent_words.rounded(), 5000);
    assert_eq!(find(&stats, "Carol").percent_words.rounded(), 714);
}

#[test]
fn share_of_no_words_is_zero() {
    let t = at(2024, 1, 2, 9, 0, 0);
    let stats = compute_stats(&[message("A", "", t), message("B", "  ", t)]);
    for s in &stats {
        assert_eq!(s.num_words, 0);
        assert_eq!(s.percent_words, Percent { part: 0, whole: 0 });
        assert_eq!(s.percent_words.rounded(), 0);
        assert_eq!(s.percent_messages.rounded(), 5000);
    }
}

#[test]
fn shares_round_to_the_nearest_hundredth() {
    assert_eq!(Percent { part: 1, whole: 3 }.rounded(), 3333);
    assert_eq!(Percent { part: 2, whole: 3 }.rounded(), 6667);
    assert_eq!(Percent { part: 1, whole: 800 }.rounded(), 12);
    assert_eq!(Percent { part: 3, whole: 800 }.rounded(), 38);
    assert_eq!(Percent { part: 1, whole: 7 }.rounded(), 1429);
    assert_eq!(Percent { part: 5, whole: 5 }.rounded(), 10000);
    assert_eq!(Percent { part: 0, whole: 5 }.rounded(), 0);
    assert_eq!(Percent { part: 0, whole: 0 }.rounded(), 0);
    assert_eq!(Percent { part: 7, whole: 0 }.rounded(), 0);
    assert_eq!(Percent { part: u64::MAX, whole: u64::MAX }.rounded(), 10000);
    assert_eq!(Percent { part: 1, whole: u64::MAX }.rounded(), 0);
}

#[test]
fn first_message_is_the_earliest() {
    let messages = sample();
    let stats = compute_stats(&messages);
    assert_eq!(find(&stats, "Bob").first_message, at(2023, 12, 31, 23, 59, 59));
    assert_eq!(find(&stats, "Alice").first_message, at(2024, 1, 1, 0, 0, 0));
    assert_eq!(find(&stats, "Carol").first_message, at(2024, 1, 2, 9, 6, 0));
    for s in &stats {
        let own: Vec<&Message> = messages.iter().filter(|m| m.author == s.user).collect();
        assert!(own.iter().any(|m| m.timestamp == s.first_message));
        assert!(own.iter().all(|m| !m.timestamp.is_earlier(&s.first_message)));
    }
}

#[test]
fn instants_are_ordered_field_by_field() {
    let base = at(2024, 6, 15, 12, 30, 30);
    let later = [
        at(2025, 1, 1, 0, 0, 0),
        at(2024, 7, 1, 0, 0, 0),
        at(2024, 6, 16, 0, 0, 0),
        at(2024, 6, 15, 13, 0, 0),
        at(2024, 6, 15, 12, 31, 0),
        at(2024, 6, 15, 12, 30, 31),
    ];
    assert!(!base.is_earlier(&base));
    for t in later {
        assert!(base.is_earlier(&t));
        assert!(!t.is_earlier(&base));
    }
}

#[test]
fn order_of_messages_does_not_change_the_statistics() {
    let messages = sample();
    let stats = compute_stats(&messages);
    let mut reversed = messages.clone();
    reversed.reverse();
    let mut rotated = messages.clone();
    rotated.rotate_left(2);
    for other in [reversed, rotated] {
        let other_stats = compute_stats(&other);
        assert_eq!(other_stats.len(), stats.len());
        for s in &stats {
            let o = find(&other_stats, &s.user);
            assert_eq!(o.num_messages, s.num_messages);
            assert_eq!(o.num_words, s.num_words);
            assert_eq!(o.first_message, s.first_message);
            assert_eq!(o.percent_messages, s.percent_messages);
            assert_eq!(o.percent_words, s.percent_words);
        }
    }
}

#[test]
fn no_messages_no_statistics() {
    assert_eq!(compute_stats(&[]).len(), 0);
    assert_eq!(count_all_words(&[]), Some(0));
    assert_eq!(checked_stats(&[]).map(|s| s.len()), Some(0));
    assert_eq!(stats_by_year(&[]).len(), 0);
}

#[test]
fn checked_statistics_are_the_statistics() {
    let messages = sample();
    let checked = checked_stats(&messages).expect("the counts fit");
    assert_eq!(users(&checked), users(&compute_stats(&messages)));
    assert_eq!(find(&checked, "Bob").num_words, 6);
}

#[test]
fn ties_go_by_the_name_of_the_author() {
    let t = at(2024, 1, 2, 9, 0, 0);
    let messages = vec![
        message("bob", "a", t),
        message("Zed", "a", t),
        message("alice", "a", t),
        message("Al", "a", t),
        message("Alice", "a", t),
        message("\u{e9}mile", "a", t),
        message("", "a", t),
    ];
    let sorted = sort_stats(compute_stats(&messages), SortBy::Messages);
    assert_eq!(users(&sorted), ["", "Al", "Alice", "Zed", "alice", "bob", "\u{e9}mile"]);
}

#[test]
fn text_order_is_that_of_the_standard_library() {
    let samples = ["", "a", "A", "ab", "abc", "b", "\u{e9}", "z", "\u{1F600}", "\u{ffff}", "aa", "a "];
    for a in samples {
        for b in samples {
            assert_eq!(is_text_before(a, b), a < b, "{:?} {:?}", a, b);
        }
    }
}

#[test]
fn greater_count_comes_first() {
    let t = at(2024, 1, 2, 9, 0, 0);
    let few = Stat {
        user: "a".to_string(),
        num_messages: 1,
        num_words: 9,
        first_message: t,
        percent_messages: Percent { part: 1, whole: 3 },
        percent_words: Percent { part: 9, whole: 10 },
    };
    let many = Stat {
        user: "b".to_string(),
        num_messages: 2,
        num_words: 1,
        first_message: t,
        percent_messages: Percent { part: 2, whole: 3 },
        percent_words: Percent { part: 1, whole: 10 },
    };
    assert!(stat_precedes(&many, &few, SortBy::Messages));
    assert!(!stat_precedes(&few, &many, SortBy::Messages));
    assert!(stat_precedes(&few, &many, SortBy::Words));
    assert!(!stat_precedes(&many, &few, SortBy::Words));
    assert!(!stat_precedes(&few, &few, SortBy::Words));
}

#[test]
fn sorted_order_depends_on_the_entries_alone() {
    let messages = sample();
    let mut reversed = messages.clone();
    reversed.reverse();
    for by in [SortBy::Messages, SortBy::Words] {
        let a = sort_stats(compute_stats(&messages), by);
        let b = sort_stats(compute_stats(&reversed), by);
        assert_eq!(users(&a), users(&b));
    }
    assert_eq!(users(&sort_stats(compute_stats(&messages), SortBy::Messages)), ["Bob", "Alice", "Carol"]);
    assert_eq!(users(&sort_stats(compute_stats(&messages), SortBy::Words)), ["Alice", "Bob", "Carol"]);
}

#[test]
fn year_grouping() {
    let content = "[12/31/23, 10:00:00\u{202F}PM] A: one two\n[12/31/23, 11:00:00\u{202F}PM] B: three\n[1/1/24, 1:00:00\u{202F}AM] A: four\n[1/1/24, 2:00:00\u{202F}AM] A: five six seven";
    let messages = parse(content).expect("the transcript parses");
    let all = stats_by_year(&messages);
    assert_eq!(all.len(), 2);
    assert_eq!(all[0].year, 2023);
    assert_eq!(all[1].year, 2024);
    for year in &all {
        let count: u64 = year.stats.iter().map(|s| s.num_messages).sum();
        assert_eq!(count, 2);
        for s in &year.stats {
            assert_eq!(s.percent_messages.whole, 2);
        }
        let parts: u64 = year.stats.iter().map(|s| s.percent_messages.part).sum();
        assert_eq!(parts, 2);
        let words: u64 = year.stats.iter().map(|s| s.percent_words.part).sum();
        assert_eq!(words, year.stats[0].percent_words.whole);
    }
    assert_eq!(users(&all[0].stats), ["A", "B"]);
    assert_eq!(find(&all[0].stats, "A").percent_words, Percent { part: 2, whole: 3 });
    assert_eq!(users(&all[1].stats), ["A"]);
    assert_eq!(find(&all[1].stats, "A").percent_words, Percent { part: 4, whole: 4 });
}

#[test]
fn years_ascend_whatever_the_order_of_the_messages() {
    let messages = vec![
        message("A", "x", at(2024, 1, 1, 0, 0, 0)),
        message("A", "x", at(1999, 1, 1, 0, 0, 0)),
        message("B", "x", at(2030, 1, 1, 0, 0, 0)),
        message("A", "x y", at(1999, 5, 1, 0, 0, 0)),
        message("C", "x", at(2024, 12, 31, 0, 0, 0)),
    ];
    assert_eq!(message_years(&messages), [1999, 2024, 2030]);
    let groups = group_by_year(&messages);
    assert_eq!(groups.iter().map(|g| g.year).collect::<Vec<_>>(), [1999, 2024, 2030]);
    assert_eq!(groups[0].messages.len(), 2);
    assert_eq!(groups[0].messages[1].text, "x y");
    assert_eq!(groups[1].messages.len(), 2);
    assert_eq!(groups[1].messages[1].author, "C");
    assert_eq!(groups[2].messages.len(), 1);
}

#[test]
fn statistics_of_a_year_are_those_of_its_messages() {
    let messages = sample();
    let all = stats_by_year(&messages);
    assert_eq!(all.len(), 2);
    for year in &all {
        let part = messages_in_year(&messages, year.year);
        let expected = compute_stats(&part);
        assert_eq!(users(&year.stats), users(&expected));
        for s in &year.stats {
            let e = find(&expected, &s.user);
            assert_eq!(s.num_messages, e.num_messages);
            assert_eq!(s.num_words, e.num_words);
            assert_eq!(s.first_message, e.first_message);
            assert_eq!(s.percent_messages, e.percent_messages);
            assert_eq!(s.percent_words, e.percent_words);
        }
    }
    assert_eq!(messages_in_year(&messages, 2023).len(), 1);
    assert_eq!(messages_in_year(&messages, 2024).len(), 5);
    assert_eq!(messages_in_year(&messages, 2022).len(), 0);
}
