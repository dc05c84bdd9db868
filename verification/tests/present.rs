use chat_stats::extract::{parse, Message, ParseHeaderError};
use chat_stats::order::SortBy;
use chat_stats::present::{
    analyze, checked_report, plain_lines, render_in_order, render_stats, report, table_cells,
};
use chat_stats::stats::{compute_stats, Percent};
use chat_stats::text::{push_decimal, push_four_digits, push_signed, push_two_digits};
use chat_stats::timestamp::Timestamp;

fn parsed(content: &str) -> Vec<Message> {
    parse(content).expect("the transcript parses")
}

fn at(year: i32, month: u32, day: u32, hour: u32, minute: u32, second: u32) -> Timestamp {
    Timestamp { year, month, day, hour, minute, second }
}

fn civil(t: &Timestamp) -> String {
    let mut s = String::new();
    t.push_civil(&mut s);
    s
}

fn with_offset(t: &Timestamp) -> String {
    let mut s = String::new();
    t.push_with_offset(&mut s);
    s
}

fn percent(part: u64, whole: u64) -> String {
    let mut s = String::new();
    Percent { part, whole }.push_text(&mut s);
    s
}

const TWO_AUTHORS: &str = "[1/2/24, 9:05:07\u{202F}AM] Alice: line one\nstill alice\n[1/2/24, 9:06:00\u{202F}AM] Bob: hi";

#[test]
fn single_line_plain_output() {
    let messages = parsed("[1/2/24, 9:05:07\u{202F}AM] Alice: hello world");
    let text = render_stats(compute_stats(&messages), false, SortBy::Messages);
    assert_eq!(
        text,
        "Alice: 1 msgs, 2 words, first at 2024-01-02 09:05:07 +00:00, 100.00% msgs, 100.00% words\n"
    );
    assert_eq!(report(&messages, false, false, SortBy::Messages), text);
}

#[test]
fn two_authors_plain_output() {
    let messages = parsed(TWO_AUTHORS);
    assert_eq!(
        report(&messages, false, false, SortBy::Words),
        "Alice: 1 msgs, 4 words, first at 2024-01-02 09:05:07 +00:00, 50.00% msgs, 80.00% words\n\
         Bob: 1 msgs, 1 words, first at 2024-01-02 09:06:00 +00:00, 50.00% msgs, 20.00% words\n"
    );
}

#[test]
fn single_line_pretty_output() {
    let messages = parsed("[1/2/24, 9:05:07\u{202F}AM] Alice: hello world");
    let text = render_stats(compute_stats(&messages), true, SortBy::Messages);
    assert_eq!(
        text,
        "+-------+----------+-------+---------------------+------------------+---------------+\n\
         | User  | Messages | Words | First               | percent_messages | percent_words |\n\
         +-------+----------+-------+---------------------+------------------+---------------+\n\
         | Alice | 1        | 2     | 2024-01-02 09:05:07 | 100.00%          | 100.00%       |\n\
         +-------+----------+-------+---------------------+------------------+---------------+\n"
    );
}

#[test]
fn pretty_output_is_the_table_of_the_cells() {
    let messages = parsed(TWO_AUTHORS);
    let rows = vec![
        vec!["User", "Messages", "Words", "First", "percent_messages", "percent_words"],
        vec!["Alice", "1", "4", "2024-01-02 09:05:07", "50.00%", "80.00%"],
        vec!["Bob", "1", "1", "2024-01-02 09:06:00", "50.00%", "20.00%"],
    ];
    let mut builder = tabled::builder::Builder::new();
    for row in rows {
        builder.push_record(row);
    }
    let expected = format!("{}\n", builder.build());
    assert_eq!(report(&messages, false, true, SortBy::Messages), expected);
    assert!(expected.lines().count() == 7);
}

#[test]
fn no_statistics_plain_output_is_empty() {
    assert_eq!(render_stats(Vec::new(), false, SortBy::Messages), "");
    assert_eq!(report(&[], false, false, SortBy::Messages), "");
    assert_eq!(report(&[], true, false, SortBy::Messages), "");
    assert_eq!(report(&[], true, true, SortBy::Words), "");
}

#[test]
fn no_statistics_pretty_output_is_the_heading_row() {
    assert_eq!(
        render_stats(Vec::new(), true, SortBy::Messages),
        "+------+----------+-------+-------+------------------+---------------+\n\
         | User | Messages | Words | First | percent_messages | percent_words |\n\
         +------+----------+-------+-------+------------------+---------------+\n"
    );
}

#[test]
fn report_by_year() {
    let content = "[12/31/23, 10:00:00\u{202F}PM] A: one two\n[12/31/23, 11:00:00\u{202F}PM] B: three\n[1/1/24, 1:00:00\u{202F}AM] B: four\n[1/1/24, 2:00:00\u{202F}AM] B: five six seven";
    let messages = parsed(content);
    assert_eq!(
        report(&messages, true, false, SortBy::Messages),
        "\n=== Stats for 2023 ===\n\
         A: 1 msgs, 2 words, first at 2023-12-31 22:00:00 +00:00, 50.00% msgs, 66.67% words\n\
         B: 1 msgs, 1 words, first at 2023-12-31 23:00:00 +00:00, 50.00% msgs, 33.33% words\n\
         \n=== Stats for 2024 ===\n\
         B: 2 msgs, 4 words, first at 2024-01-01 01:00:00 +00:00, 100.00% msgs, 100.00% words\n"
    );
    assert_eq!(
        checked_report(&messages, true, false, SortBy::Messages),
        Some(report(&messages, true, false, SortBy::Messages))
    );
}

#[test]
fn report_by_year_pretty() {
    let content = "[12/31/23, 10:00:00\u{202F}PM] A: one\n[1/1/24, 1:00:00\u{202F}AM] B: two";
    let messages = parsed(content);
    let text = report(&messages, true, true, SortBy::Words);
    let first = render_stats(compute_stats(&messages[..1]), true, SortBy::Words);
    let second = render_stats(compute_stats(&messages[1..]), true, SortBy::Words);
    assert_eq!(
        text,
        format!("\n=== Stats for 2023 ===\n{}\n=== Stats for 2024 ===\n{}", first, second)
    );
}

#[test]
fn report_is_sorted_by_the_chosen_count() {
    let content = "[1/1/24, 1:00:00\u{202F}AM] A: one two three four five six seven eight nine ten\n[1/1/24, 1:00:01\u{202F}AM] B: x\n[1/1/24, 1:00:02\u{202F}AM] B: y\n[1/1/24, 1:00:03\u{202F}AM] B: z";
    let messages = parsed(content);
    let by_messages = report(&messages, false, false, SortBy::Messages);
    let by_words = report(&messages, false, false, SortBy::Words);
    let a = "A: 1 msgs, 10 words, first at 2024-01-01 01:00:00 +00:00, 25.00% msgs, 76.92% words\n";
    let b = "B: 3 msgs, 3 words, first at 2024-01-01 01:00:01 +00:00, 75.00% msgs, 23.08% words\n";
    assert_eq!(by_messages, format!("{}{}", b, a));
    assert_eq!(by_words, format!("{}{}", a, b));
}

#[test]
fn output_does_not_depend_on_the_order_of_the_entries() {
    let messages = parsed(TWO_AUTHORS);
    let stats = compute_stats(&messages);
    let mut reversed = stats.clone();
    reversed.reverse();
    for pretty in [false, true] {
        for by in [SortBy::Messages, SortBy::Words] {
            assert_eq!(
                render_stats(stats.clone(), pretty, by),
                render_stats(reversed.clone(), pretty, by)
            );
        }
    }
}

#[test]
fn rendering_in_order_keeps_the_order() {
    let messages = parsed(TWO_AUTHORS);
    let mut stats = compute_stats(&messages);
    stats.reverse();
    let text = render_in_order(&stats, false);
    assert!(text.starts_with("Bob: 1 msgs"));
    assert!(text.ends_with("80.00% words\n"));
}

#[test]
fn instants_are_written_as_the_date_library_writes_them() {
    let samples = [
        at(2024, 1, 2, 9, 5, 7),
        at(1970, 1, 1, 0, 0, 0),
        at(2069, 12, 31, 23, 59, 59),
        at(999, 10, 9, 8, 7, 6),
        at(5, 1, 1, 1, 1, 1),
        at(0, 1, 1, 1, 1, 1),
        at(9999, 12, 31, 23, 59, 59),
        at(10000, 1, 1, 0, 0, 0),
        at(123456, 1, 1, 0, 0, 0),
        at(-1, 3, 4, 5, 6, 7),
        at(-12345, 3, 4, 5, 6, 7),
    ];
    for t in samples {
        let naive = chrono::NaiveDate::from_ymd_opt(t.year, t.month, t.day)
            .unwrap()
            .and_hms_opt(t.hour, t.minute, t.second)
            .unwrap();
        let zero = chrono::FixedOffset::west_opt(0).unwrap();
        let instant: chrono::DateTime<chrono::FixedOffset> =
            chrono::DateTime::from_naive_utc_and_offset(naive, zero);
        assert_eq!(with_offset(&t), instant.to_string());
        assert_eq!(civil(&t), instant.format("%Y-%m-%d %H:%M:%S").to_string());
    }
    assert_eq!(with_offset(&at(2024, 1, 2, 9, 5, 7)), "2024-01-02 09:05:07 +00:00");
    assert_eq!(civil(&at(2024, 1, 2, 9, 5, 7)), "2024-01-02 09:05:07");
}

#[test]
fn leap_second_is_written_as_the_date_library_writes_it() {
    let messages = parsed("[12/31/16, 11:59:60\u{202F}PM] A: x");
    let naive = chrono::NaiveDateTime::parse_from_str("12/31/16 11:59:60 PM", "%m/%d/%y %I:%M:%S %p")
        .unwrap();
    let zero = chrono::FixedOffset::west_opt(0).unwrap();
    let instant: chrono::DateTime<chrono::FixedOffset> =
        chrono::DateTime::from_naive_utc_and_offset(naive, zero);
    assert_eq!(with_offset(&messages[0].timestamp), instant.to_string());
    assert_eq!(with_offset(&messages[0].timestamp), "2016-12-31 23:59:60 +00:00");
    assert_eq!(civil(&messages[0].timestamp), instant.format("%Y-%m-%d %H:%M:%S").to_string());
}

#[test]
fn shares_are_written_with_two_digits_after_the_point() {
    assert_eq!(percent(1, 1), "100.00");
    assert_eq!(percent(0, 1), "0.00");
    assert_eq!(percent(0, 0), "0.00");
    assert_eq!(percent(1, 3), "33.33");
    assert_eq!(percent(2, 3), "66.67");
    assert_eq!(percent(1, 20), "5.00");
    assert_eq!(percent(1, 1000), "0.10");
    assert_eq!(percent(1, 16), "6.25");
    assert_eq!(percent(1, 800), "0.12");
    assert_eq!(percent(3, 800), "0.38");
    assert_eq!(percent(1, 100000), "0.00");
    assert_eq!(percent(999, 1000), "99.90");
    assert_eq!(percent(99999, 100000), "100.00");
}

#[test]
fn numbers_are_written_in_decimal() {
    let mut s = String::new();
    push_decimal(&mut s, 0);
    s.push(' ');
    push_decimal(&mut s, 7);
    s.push(' ');
    push_decimal(&mut s, 1234567890);
    s.push(' ');
    push_decimal(&mut s, u128::MAX);
    s.push(' ');
    push_two_digits(&mut s, 3);
    s.push(' ');
    push_two_digits(&mut s, 42);
    s.push(' ');
    push_two_digits(&mut s, 123);
    s.push(' ');
    push_four_digits(&mut s, 0);
    s.push(' ');
    push_four_digits(&mut s, 45);
    s.push(' ');
    push_four_digits(&mut s, 678);
    s.push(' ');
    push_four_digits(&mut s, 2024);
    s.push(' ');
    push_four_digits(&mut s, 12345);
    s.push(' ');
    push_signed(&mut s, -2024);
    s.push(' ');
    push_signed(&mut s, 0);
    s.push(' ');
    push_signed(&mut s, i64::MIN);
    assert_eq!(
        s,
        "0 7 1234567890 340282366920938463463374607431768211455 03 42 123 0000 0045 0678 2024 12345 -2024 0 -9223372036854775808"
    );
}

#[test]
fn table_has_a_heading_row_and_a_row_for_each_entry() {
    let messages = parsed(TWO_AUTHORS);
    let rows = table_cells(&compute_stats(&messages));
    assert_eq!(
        rows,
        [
            ["User", "Messages", "Words", "First", "percent_messages", "percent_words"],
            ["Alice", "1", "4", "2024-01-02 09:05:07", "50.00%", "80.00%"],
            ["Bob", "1", "1", "2024-01-02 09:06:00", "50.00%", "20.00%"],
        ]
    );
    assert_eq!(table_cells(&[]).len(), 1);
}

#[test]
fn plain_lines_are_one_for_each_entry() {
    let messages = parsed(TWO_AUTHORS);
    let stats = compute_stats(&messages);
    let text = plain_lines(&stats);
    assert_eq!(text.lines().count(), 2);
    assert_eq!(text, render_in_order(&stats, false));
    assert_eq!(plain_lines(&[]), "");
}

#[test]
fn transcript_to_report() {
    assert_eq!(
        analyze("[1/2/24, 9:05:07\u{202F}AM] Alice: hello world", false, false, SortBy::Messages),
        Ok("Alice: 1 msgs, 2 words, first at 2024-01-02 09:05:07 +00:00, 100.00% msgs, 100.00% words\n".to_string())
    );
    assert_eq!(analyze("", false, false, SortBy::Messages), Ok(String::new()));
    assert_eq!(analyze("Group created", true, false, SortBy::Words), Ok(String::new()));
    let messages = parsed(TWO_AUTHORS);
    for by_year in [false, true] {
        for pretty in [false, true] {
            for sort in [SortBy::Messages, SortBy::Words] {
                assert_eq!(
                    analyze(TWO_AUTHORS, by_year, pretty, sort),
                    Ok(report(&messages, by_year, pretty, sort))
                );
            }
        }
    }
    assert_eq!(
        analyze("ok\n[1/2/24, 9:05:07\u{202F}AM] A: x\n[2/30/24, 9:05:07\u{202F}AM] A: x", false, true, SortBy::Words),
        Err(ParseHeaderError { line: 2 })
    );
}
