//! Statistics as text: one line for each author, or a table.

use crate::extract::{
    frames_of, messages_from, parse, reading_of, total_words, views, Message, MessageView,
    ParseHeaderError,
};
use crate::lines::lines_of;
use crate::order::{
    distinct_users, is_ordering_of, lemma_ordering_unique, ordered, sort_stats, SortBy,
};
use crate::stats::{
    compute_stats, count_all_words, lemma_authors_distinct, stat_views, stats_of, Percent, Stat,
    StatView,
};
use crate::text::{
    decimal, push_decimal, push_signed, push_text, push_two_digits, signed_decimal, two_digits,
};
use crate::years::{
    are_groups_of, group_by_year, in_year, lemma_in_year_words, lemma_years_unique, years_of,
    YearGroup,
};
use vstd::prelude::*;

verus! {

impl Percent {
    /// The share in hundredths of a percent, rounded to the nearest, and to
    /// the even one of two that are equally near.
    pub open spec fn hundredths(self) -> nat {
        if self.whole == 0 {
            0
        } else {
            let scaled = self.part as nat * 10000;
            let q = scaled / self.whole as nat;
            let r = scaled % self.whole as nat;
            if 2 * r > self.whole || (2 * r == self.whole && q % 2 == 1) {
                q + 1
            } else {
                q
            }
        }
    }

    /// Computes [`Percent::hundredths`].
    pub fn rounded(&self) -> (h: u128)
        ensures
            h == self.hundredths(),
    {
        if self.whole == 0 {
            return 0;
        }
        let scaled: u128 = self.part as u128 * 10000;
        let whole: u128 = self.whole as u128;
        let q: u128 = scaled / whole;
        let r: u128 = scaled % whole;
        if 2 * r > whole || (2 * r == whole && q % 2 == 1) {
            q + 1
        } else {
            q
        }
    }

    /// The share in percent with two digits after the point.
    pub open spec fn text(self) -> Seq<char> {
        decimal(self.hundredths() / 100) + seq!['.'] + two_digits(self.hundredths() % 100)
    }

    /// Appends [`Percent::text`] to `out`.
    pub fn push_text(&self, out: &mut String)
        ensures
            final(out)@ == old(out)@ + self.text(),
    {
        let h = self.rounded();
        push_decimal(out, h / 100);
        out.push('.');
        push_two_digits(out, h % 100);
        assert(out@ =~= old(out)@ + self.text());
    }
}

/// The line that presents `s`.
pub open spec fn plain_line(s: StatView) -> Seq<char> {
    s.user + ": "@ + decimal(s.num_messages as nat) + " msgs, "@ + decimal(s.num_words as nat)
        + " words, first at "@ + s.first_message.offset_text() + ", "@
        + s.percent_messages.text() + "% msgs, "@ + s.percent_words.text() + "% words"@
}

/// The lines that present `stats`, each with a line feed after it.
pub open spec fn plain_text(stats: Seq<StatView>) -> Seq<char>
    decreases stats.len(),
{
    if stats.len() == 0 {
        Seq::empty()
    } else {
        plain_text(stats.drop_last()) + plain_line(stats.last()) + seq!['\n']
    }
}

/// The cells of the heading row of the table.
pub open spec fn heading_cells() -> Seq<Seq<char>> {
    seq!["User"@, "Messages"@, "Words"@, "First"@, "percent_messages"@, "percent_words"@]
}

/// The cells of the row that presents `s`.
pub open spec fn cells(s: StatView) -> Seq<Seq<char>> {
    seq![
        s.user,
        decimal(s.num_messages as nat),
        decimal(s.num_words as nat),
        s.first_message.civil_text(),
        s.percent_messages.text() + seq!['%'],
        s.percent_words.text() + seq!['%'],
    ]
}

/// The rows of the table that presents `stats`: the heading row, then one row
/// for each entry.
pub open spec fn table_rows(stats: Seq<StatView>) -> Seq<Seq<Seq<char>>> {
    seq![heading_cells()] + stats.map_values(|s: StatView| cells(s))
}

/// The text that `tabled` draws of a table with the rows `rows`, the first of
/// them its heading: what `Display` writes of the `Table` that a `Builder`
/// made of the rows builds.
pub uninterp spec fn table_text(rows: Seq<Seq<Seq<char>>>) -> Seq<char>;

/// Calls `tabled::builder::Builder::from` on the rows, `Builder::build` on its
/// result, and `to_string` on the table.
///
/// Trusted: the text is a function of the cell texts alone.
#[verifier::external_body]
fn draw_table(rows: Vec<Vec<String>>) -> (text: String)
    requires
        rows.deep_view().len() > 0,
        forall|i: int| 0 <= i < rows.deep_view().len() ==> (#[trigger] rows.deep_view()[i]).len() == 6,
    ensures
        text@ == table_text(rows.deep_view()),
{
    tabled::builder::Builder::from(rows).build().to_string()
}

/// The table that presents `stats`, with a line feed after it.
pub open spec fn pretty_text(stats: Seq<StatView>) -> Seq<char> {
    table_text(table_rows(stats)) + seq!['\n']
}

/// The text that presents `stats` in the order in which they stand.
pub open spec fn stats_text(stats: Seq<StatView>, pretty: bool) -> Seq<char> {
    if pretty {
        pretty_text(stats)
    } else {
        plain_text(stats)
    }
}

fn push_line(out: &mut String, s: &Stat)
    ensures
        final(out)@ == old(out)@ + plain_line(s@) + seq!['\n'],
{
    push_text(out, s.user.as_str());
    push_text(out, ": ");
    push_decimal(out, s.num_messages as u128);
    push_text(out, " msgs, ");
    push_decimal(out, s.num_words as u128);
    push_text(out, " words, first at ");
    s.first_message.push_with_offset(out);
    push_text(out, ", ");
    s.percent_messages.push_text(out);
    push_text(out, "% msgs, ");
    s.percent_words.push_text(out);
    push_text(out, "% words");
    out.push('\n');
    assert(out@ =~= old(out)@ + plain_line(s@) + seq!['\n']);
}

fn number_cell(n: u64) -> (cell: String)
    ensures
        cell@ == decimal(n as nat),
{
    let mut cell = String::new();
    push_decimal(&mut cell, n as u128);
    assert(cell@ =~= decimal(n as nat));
    cell
}

fn percent_cell(p: &Percent) -> (cell: String)
    ensures
        cell@ == p.text() + seq!['%'],
{
    let mut cell = String::new();
    p.push_text(&mut cell);
    cell.push('%');
    assert(cell@ =~= p.text() + seq!['%']);
    cell
}

fn text_cell(s: &str) -> (cell: String)
    ensures
        cell@ == s@,
{
    let mut cell = String::new();
    push_text(&mut cell, s);
    assert(cell@ =~= s@);
    cell
}

fn row_of(s: &Stat) -> (row: Vec<String>)
    ensures
        row.deep_view() == cells(s@),
{
    let mut first = String::new();
    s.first_message.push_civil(&mut first);
    assert(first@ =~= s.first_message.civil_text());
    let mut row: Vec<String> = Vec::new();
    row.push(s.user.clone());
    row.push(number_cell(s.num_messages));
    row.push(number_cell(s.num_words));
    row.push(first);
    row.push(percent_cell(&s.percent_messages));
    row.push(percent_cell(&s.percent_words));
    assert(row.deep_view() =~= cells(s@));
    row
}

fn heading_row() -> (row: Vec<String>)
    ensures
        row.deep_view() == heading_cells(),
{
    let mut row: Vec<String> = Vec::new();
    row.push(text_cell("User"));
    row.push(text_cell("Messages"));
    row.push(text_cell("Words"));
    row.push(text_cell("First"));
    row.push(text_cell("percent_messages"));
    row.push(text_cell("percent_words"));
    assert(row.deep_view() =~= heading_cells());
    row
}

/// The cells of the table that presents `stats`, row by row.
pub fn table_cells(stats: &[Stat]) -> (rows: Vec<Vec<String>>)
    ensures
        rows.deep_view() == table_rows(stat_views(stats@)),
{
    let ghost all = stat_views(stats@);
    let mut rows: Vec<Vec<String>> = Vec::new();
    rows.push(heading_row());
    let mut i: usize = 0;
    while i < stats.len()
        invariant
            i <= stats@.len(),
            all == stat_views(stats@),
            rows.deep_view() == table_rows(all.take(i as int)),
        decreases stats@.len() - i,
    {
        let ghost before = rows.deep_view();
        rows.push(row_of(&stats[i]));
        proof {
            assert(rows.deep_view() =~= before.push(cells(all[i as int])));
            assert(table_rows(all.take(i + 1)) =~= table_rows(all.take(i as int)).push(
                cells(all[i as int]),
            ));
        }
        i += 1;
    }
    proof {
        assert(all.take(stats@.len() as int) =~= all);
    }
    rows
}

/// The lines that present `stats`, each with a line feed after it.
pub fn plain_lines(stats: &[Stat]) -> (text: String)
    ensures
        text@ == plain_text(stat_views(stats@)),
{
    let ghost all = stat_views(stats@);
    let mut text = String::new();
    let mut i: usize = 0;
    while i < stats.len()
        invariant
            i <= stats@.len(),
            all == stat_views(stats@),
            text@ == plain_text(all.take(i as int)),
        decreases stats@.len() - i,
    {
        push_line(&mut text, &stats[i]);
        proof {
            assert(all.take(i + 1).drop_last() =~= all.take(i as int));
        }
        i += 1;
    }
    proof {
        assert(all.take(stats@.len() as int) =~= all);
    }
    text
}

/// Writes `stats` in the order in which they stand: as lines, or as a table
/// where `pretty` is set.
pub fn render_in_order(stats: &[Stat], pretty: bool) -> (text: String)
    ensures
        text@ == stats_text(stat_views(stats@), pretty),
{
    if pretty {
        let mut text = draw_table(table_cells(stats));
        text.push('\n');
        text
    } else {
        plain_lines(stats)
    }
}

/// A rearrangement of entries of which no two are of one author has no two
/// of one author either.
pub proof fn lemma_distinct_users_kept(a: Seq<StatView>, b: Seq<StatView>)
    requires
        a.to_multiset() == b.to_multiset(),
        distinct_users(b),
    ensures
        distinct_users(a),
{
    assert(b.no_duplicates());
    b.lemma_multiset_has_no_duplicates();
    a.lemma_multiset_has_no_duplicates_conv();
    assert forall|i: int, j: int| 0 <= i < j < a.len() implies a[i].user != a[j].user by {
        vstd::seq_lib::to_multiset_contains(a, a[i]);
        vstd::seq_lib::to_multiset_contains(b, a[i]);
        vstd::seq_lib::to_multiset_contains(a, a[j]);
        vstd::seq_lib::to_multiset_contains(b, a[j]);
        assert(a.contains(a[i]) && a.contains(a[j]));
        let k = b.index_of(a[i]);
        let l = b.index_of(a[j]);
        assert(a[i] != a[j]);
        assert(k != l);
    }
}

/// Writes `stats` in the order that `sort` asks for: as lines, or as a table
/// where `pretty` is set.
pub fn render_stats(stats: Vec<Stat>, pretty: bool, sort: SortBy) -> (text: String)
    ensures
        exists|o: Seq<StatView>| #[trigger]
            is_ordering_of(o, stat_views(stats@), sort) && text@ == stats_text(o, pretty),
        distinct_users(stat_views(stats@)) ==> text@ == stats_text(
            ordered(stat_views(stats@), sort),
            pretty,
        ),
{
    let ghost all = stat_views(stats@);
    let sorted = sort_stats(stats, sort);
    proof {
        let o = stat_views(sorted@);
        assert(is_ordering_of(o, all, sort));
        if distinct_users(all) {
            lemma_distinct_users_kept(o, all);
            lemma_ordering_unique(o, ordered(all, sort), sort);
        }
    }
    render_in_order(sorted.as_slice(), pretty)
}

/// The statistics of messages hold no two entries of one author.
pub proof fn lemma_stats_distinct(ms: Seq<MessageView>)
    ensures
        distinct_users(stats_of(ms)),
{
    lemma_authors_distinct(ms);
}

/// The heading that stands above the statistics of the year `year`, after an
/// empty line.
pub open spec fn heading_text(year: int) -> Seq<char> {
    "\n=== Stats for "@ + signed_decimal(year) + " ===\n"@
}

/// The text that presents the statistics of the messages `ms`, in the order
/// that `sort` asks for.
pub open spec fn overall_text(ms: Seq<MessageView>, pretty: bool, sort: SortBy) -> Seq<char> {
    stats_text(ordered(stats_of(ms), sort), pretty)
}

/// For each year of `years` in turn, its heading and the text that presents
/// the statistics of the messages of `ms` in that year.
pub open spec fn yearly_text(
    ms: Seq<MessageView>,
    years: Seq<i32>,
    pretty: bool,
    sort: SortBy,
) -> Seq<char>
    decreases years.len(),
{
    if years.len() == 0 {
        Seq::empty()
    } else {
        yearly_text(ms, years.drop_last(), pretty, sort) + heading_text(years.last() as int)
            + overall_text(in_year(ms, years.last() as int), pretty, sort)
    }
}

/// The report on the messages `ms`: their statistics, or where `by_year` is
/// set the statistics of each year under its heading, the years ascending.
pub open spec fn report_text(
    ms: Seq<MessageView>,
    by_year: bool,
    pretty: bool,
    sort: SortBy,
) -> Seq<char> {
    if by_year {
        yearly_text(ms, years_of(ms), pretty, sort)
    } else {
        overall_text(ms, pretty, sort)
    }
}

/// Writes the report on `messages`.
pub fn report(messages: &[Message], by_year: bool, pretty: bool, sort: SortBy) -> (text: String)
    requires
        total_words(views(messages@)) <= u64::MAX,
    ensures
        text@ == report_text(views(messages@), by_year, pretty, sort),
{
    let ghost ms = views(messages@);
    if !by_year {
        proof {
            lemma_stats_distinct(ms);
        }
        return render_stats(compute_stats(messages), pretty, sort);
    }
    let groups = group_by_year(messages);
    let ghost years = groups@.map_values(|g: YearGroup| g.year);
    proof {
        lemma_years_unique(years, years_of(ms));
    }
    let mut text = String::new();
    let mut k: usize = 0;
    while k < groups.len()
        invariant
            k <= groups@.len(),
            ms == views(messages@),
            total_words(ms) <= u64::MAX,
            are_groups_of(groups@, ms),
            years == groups@.map_values(|g: YearGroup| g.year),
            text@ == yearly_text(ms, years.take(k as int), pretty, sort),
        decreases groups@.len() - k,
    {
        let year = groups[k].year;
        proof {
            lemma_in_year_words(ms, year as int);
            lemma_stats_distinct(in_year(ms, year as int));
            assert(years.take(k + 1).drop_last() =~= years.take(k as int));
            assert(years.take(k + 1).last() == year);
        }
        push_text(&mut text, "\n=== Stats for ");
        push_signed(&mut text, year as i64);
        push_text(&mut text, " ===\n");
        let stats = compute_stats(groups[k].messages.as_slice());
        let part = render_stats(stats, pretty, sort);
        push_text(&mut text, part.as_str());
        proof {
            assert(text@ =~= yearly_text(ms, years.take(k + 1), pretty, sort));
        }
        k += 1;
    }
    proof {
        assert(years.take(groups@.len() as int) =~= years);
    }
    text
}

/// Writes the report on `messages` as [`report`] does, or gives `None` where
/// the number of their words is above `u64::MAX`.
pub fn checked_report(messages: &[Message], by_year: bool, pretty: bool, sort: SortBy) -> (r:
    Option<String>)
    ensures
        match r {
            Some(text) => {
                &&& total_words(views(messages@)) <= u64::MAX
                &&& text@ == report_text(views(messages@), by_year, pretty, sort)
            },
            None => total_words(views(messages@)) > u64::MAX,
        },
{
    match count_all_words(messages) {
        Some(_) => Some(report(messages, by_year, pretty, sort)),
        None => None,
    }
}

/// Writes the report on the transcript `content`: that of its messages.
///
/// Fails on the first header line whose digits name no date or no time of
/// day, and on no other input.
pub fn analyze(content: &str, by_year: bool, pretty: bool, sort: SortBy) -> (r: Result<
    String,
    ParseHeaderError,
>)
    ensures
        match r {
            Ok(text) => {
                let ms = messages_from(frames_of(lines_of(content@)));
                &&& reading_of(frames_of(lines_of(content@)), Ok(ms))
                &&& text@ == report_text(ms, by_year, pretty, sort)
            },
            Err(e) => reading_of(frames_of(lines_of(content@)), Err(e)),
        },
{
    match parse(content) {
        Ok(messages) => Ok(report(messages.as_slice(), by_year, pretty, sort)),
        Err(e) => Err(e),
    }
}

} // verus!
