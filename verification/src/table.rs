//! The table: a heading, a row for each category with its publications indented under
//! it, and the total.

use vstd::prelude::*;
use vstd::string::StrSliceExecFns;
use vstd::string::StringExecFns;
use crate::groups::{group_views, pub_views, CatGroup, GroupView, PubView};
use crate::moment::{moment_in_format, valid_moment, Moment};
use crate::text::{
    decimal, decimal_text, pad_left, pad_right, padded_left, padded_right, repeated,
};

verus! {

/// One row of the table: its label, its articles, and what they are a share of.
#[derive(Debug, PartialEq, Eq)]
pub struct TableRow {
    pub label: String,
    pub count: i64,
    /// A part and the whole that it is a share of; `None` for a share of nothing.
    pub share: Option<(i64, i64)>,
}

/// The model of a row.
pub struct TableRowView {
    pub label: Seq<char>,
    pub count: int,
    pub share: Option<(int, int)>,
}

impl View for TableRow {
    type V = TableRowView;

    open spec fn view(&self) -> TableRowView {
        TableRowView {
            label: self.label@,
            count: self.count as int,
            share: match self.share {
                Some((part, whole)) => Some((part as int, whole as int)),
                None => None,
            },
        }
    }
}

/// The models of rows.
pub open spec fn table_row_views(rows: Seq<TableRow>) -> Seq<TableRowView> {
    rows.map_values(|r: TableRow| r@)
}

/// A part as a share of a whole; there is none of a whole that is not positive.
pub open spec fn share_of(part: int, whole: int) -> Option<(int, int)> {
    if whole > 0 {
        Some((part, whole))
    } else {
        None
    }
}

/// The row of a category: a share of the grand total.
pub open spec fn group_row(g: GroupView, total: int) -> TableRowView {
    TableRowView { label: g.cat, count: g.count, share: share_of(g.count, total) }
}

/// The row of a publication: indented, and a share of its category.
pub open spec fn pub_row(p: PubView, whole: int) -> TableRowView {
    TableRowView { label: "    "@ + p.pubname, count: p.count, share: share_of(p.count, whole) }
}

/// The rows of a category: its own, and one for each of its publications.
pub open spec fn group_rows(g: GroupView, total: int) -> Seq<TableRowView> {
    seq![group_row(g, total)] + g.pubs.map_values(|p: PubView| pub_row(p, g.count))
}

/// The rows of all categories.
pub open spec fn all_rows(groups: Seq<GroupView>, total: int) -> Seq<TableRowView>
    decreases groups.len(),
{
    if groups.len() == 0 {
        Seq::empty()
    } else {
        all_rows(groups.drop_last(), total) + group_rows(groups.last(), total)
    }
}

fn share(part: i64, whole: i64) -> (s: Option<(i64, i64)>)
    ensures
        s == if whole > 0 {
            Some((part, whole))
        } else {
            None::<(i64, i64)>
        },
{
    if whole > 0 {
        Some((part, whole))
    } else {
        None
    }
}

/// The rows of the table. Categories are shares of the grand total, publications are
/// shares of their category.
pub fn table_rows(groups: &Vec<CatGroup>, total: i64) -> (rows: Vec<TableRow>)
    ensures
        table_row_views(rows@) == all_rows(group_views(groups@), total as int),
{
    let ghost all = group_views(groups@);
    let mut rows: Vec<TableRow> = Vec::new();
    assert(table_row_views(rows@) =~= all_rows(all.take(0), total as int));
    let mut i: usize = 0;
    while i < groups.len()
        invariant
            i <= groups@.len(),
            all == group_views(groups@),
            table_row_views(rows@) == all_rows(all.take(i as int), total as int),
        decreases groups@.len() - i,
    {
        let g = &groups[i];
        let ghost before = table_row_views(rows@);
        let ghost subs = g@.pubs.map_values(|p: PubView| pub_row(p, g@.count));
        rows.push(TableRow { label: g.cat.clone(), count: g.count, share: share(g.count, total) });
        let mut j: usize = 0;
        assert(table_row_views(rows@) =~= before + seq![group_row(g@, total as int)] + subs.take(0));
        while j < g.pubs.len()
            invariant
                j <= g.pubs@.len(),
                subs == g@.pubs.map_values(|p: PubView| pub_row(p, g@.count)),
                g@.pubs == pub_views(g.pubs@),
                table_row_views(rows@) == before + seq![group_row(g@, total as int)] + subs.take(
                    j as int,
                ),
            decreases g.pubs@.len() - j,
        {
            let p = &g.pubs[j];
            let ghost so_far = rows@;
            let mut label = "    ".to_owned();
            label.append(p.pubname.as_str());
            let row = TableRow { label, count: p.count, share: share(p.count, g.count) };
            proof {
                assert(subs[j as int] == row@);
                assert(subs.take(j + 1) =~= subs.take(j as int).push(row@));
            }
            rows.push(row);
            proof {
                assert(table_row_views(rows@) =~= table_row_views(so_far).push(row@));
                assert(table_row_views(rows@) =~= before + seq![group_row(g@, total as int)]
                    + subs.take(j + 1));
            }
            j += 1;
        }
        proof {
            assert(subs.take(subs.len() as int) =~= subs);
            assert(all.take(i + 1).drop_last() =~= all.take(i as int));
            assert(all.take(i + 1).last() == g@);
            assert(table_row_views(rows@) =~= before + group_rows(g@, total as int));
        }
        i += 1;
    }
    assert(all.take(all.len() as int) =~= all);
    rows
}

/// The width of the first column: that of the longest label, and at least that of its
/// heading.
pub open spec fn label_width(rows: Seq<TableRowView>) -> nat
    decreases rows.len(),
{
    if rows.len() == 0 {
        8
    } else {
        let w = label_width(rows.drop_last());
        if rows.last().label.len() > w {
            rows.last().label.len()
        } else {
            w
        }
    }
}

/// Every label fits the first column, so that filling it up gives it exactly that width.
pub proof fn law_labels_fit_column(rows: Seq<TableRowView>, i: int)
    requires
        0 <= i < rows.len(),
    ensures
        rows[i].label.len() <= label_width(rows),
        padded_right(rows[i].label, label_width(rows)).len() == label_width(rows),
    decreases rows.len(),
{
    if i < rows.len() - 1 {
        law_labels_fit_column(rows.drop_last(), i);
    }
}

/// The line between the parts of the table.
pub open spec fn rule_line(width: nat) -> Seq<char> {
    Seq::new(width, |i: int| '-') + "  "@ + Seq::new(9, |i: int| '-') + "  "@ + Seq::new(
        7,
        |i: int| '-',
    )
}

/// The line of a row, with the text of its percentage.
pub open spec fn row_line(row: TableRowView, percent: Seq<char>, width: nat) -> Seq<char> {
    padded_right(row.label, width) + "  "@ + padded_left(decimal(row.count), 9) + "  "@
        + padded_left(percent, 6) + "%"@
}

/// The lines of the rows, each with the text of its percentage and a line feed.
pub open spec fn row_lines(
    rows: Seq<TableRowView>,
    percents: Seq<Seq<char>>,
    width: nat,
) -> Seq<char>
    decreases rows.len(),
{
    if rows.len() == 0 {
        Seq::empty()
    } else {
        row_lines(rows.drop_last(), percents.drop_last(), width) + row_line(
            rows.last(),
            percents.last(),
            width,
        ) + "\n"@
    }
}

/// The whole table, with the texts of the two ends of the range.
pub open spec fn table_text(
    rows: Seq<TableRowView>,
    percents: Seq<Seq<char>>,
    total: int,
    first: Seq<char>,
    last: Seq<char>,
) -> Seq<char> {
    let width = label_width(rows);
    "Articles by category, "@ + first + " .. "@ + last + " UTC\n\n"@ + padded_right(
        "CATEGORY"@,
        width,
    ) + "  "@ + padded_left("ARTICLES"@, 9) + "  "@ + padded_left("PCT"@, 7) + "\n"@ + rule_line(
        width,
    ) + "\n"@ + row_lines(rows, percents, width) + rule_line(width) + "\n"@ + padded_right(
        "TOTAL"@,
        width,
    ) + "  "@ + padded_left(decimal(total), 9) + "\n"@
}

fn width_of(rows: &Vec<TableRow>) -> (width: usize)
    ensures
        width == label_width(table_row_views(rows@)),
{
    let ghost all = table_row_views(rows@);
    let mut width: usize = 8;
    let mut i: usize = 0;
    while i < rows.len()
        invariant
            i <= rows@.len(),
            all == table_row_views(rows@),
            width == label_width(all.take(i as int)),
        decreases rows@.len() - i,
    {
        let len: usize = rows[i].label.as_str().unicode_len();
        proof {
            assert(all.take(i + 1).drop_last() =~= all.take(i as int));
            assert(all.take(i + 1).last() == rows@[i as int]@);
        }
        if len > width {
            width = len;
        }
        i += 1;
    }
    assert(all.take(all.len() as int) =~= all);
    width
}

fn rule(width: usize) -> (line: String)
    ensures
        line@ == rule_line(width as nat),
{
    let mut line = repeated('-', width);
    let nine = repeated('-', 9);
    let seven = repeated('-', 7);
    line.append("  ");
    line.append(nine.as_str());
    line.append("  ");
    line.append(seven.as_str());
    line
}

fn line_of(row: &TableRow, percent: &String, width: usize) -> (line: String)
    ensures
        line@ == row_line(row@, percent@, width as nat),
{
    let mut line = pad_right(row.label.as_str(), width);
    let count = decimal_text(row.count);
    let count = pad_left(count.as_str(), 9);
    let percent = pad_left(percent.as_str(), 6);
    line.append("  ");
    line.append(count.as_str());
    line.append("  ");
    line.append(percent.as_str());
    line.append("%");
    line
}

/// The models of texts.
pub open spec fn text_views(texts: Seq<String>) -> Seq<Seq<char>> {
    texts.map_values(|t: String| t@)
}

/// The whole table of a range, with the text of the percentage of each row. The heading
/// shows the two ends of the range to the second.
pub fn render_table(
    rows: &Vec<TableRow>,
    percents: &Vec<String>,
    total: i64,
    start: Moment,
    end: Moment,
) -> (text: String)
    requires
        percents@.len() == rows@.len(),
        valid_moment(start@),
        valid_moment(end@),
    ensures
        text@ == table_text(
            table_row_views(rows@),
            text_views(percents@),
            total as int,
            moment_in_format(start@, "%Y-%m-%d %H:%M:%S"@),
            moment_in_format(end@, "%Y-%m-%d %H:%M:%S"@),
        ),
{
    let first = start.to_heading();
    let last = end.to_heading();
    table_with_heading(rows, percents, total, first.as_str(), last.as_str())
}

/// The whole table, with the texts of the two ends of the range and the text of the
/// percentage of each row.
pub fn table_with_heading(
    rows: &Vec<TableRow>,
    percents: &Vec<String>,
    total: i64,
    first: &str,
    last: &str,
) -> (text: String)
    requires
        percents@.len() == rows@.len(),
    ensures
        text@ == table_text(
            table_row_views(rows@),
            text_views(percents@),
            total as int,
            first@,
            last@,
        ),
{
    let width: usize = width_of(rows);
    let ghost all = table_row_views(rows@);
    let ghost pcts = text_views(percents@);
    let mut body = String::new();
    assert(body@ =~= row_lines(all.take(0), pcts.take(0), width as nat));
    let mut i: usize = 0;
    while i < rows.len()
        invariant
            i <= rows@.len(),
            percents@.len() == rows@.len(),
            all == table_row_views(rows@),
            pcts == text_views(percents@),
            body@ == row_lines(all.take(i as int), pcts.take(i as int), width as nat),
        decreases rows@.len() - i,
    {
        let line = line_of(&rows[i], &percents[i], width);
        proof {
            assert(all.take(i + 1).drop_last() =~= all.take(i as int));
            assert(all.take(i + 1).last() == rows@[i as int]@);
            assert(pcts.take(i + 1).drop_last() =~= pcts.take(i as int));
            assert(pcts.take(i + 1).last() == percents@[i as int]@);
        }
        body.append(line.as_str());
        body.append("\n");
        i += 1;
    }
    assert(all.take(all.len() as int) =~= all);
    assert(pcts.take(pcts.len() as int) =~= pcts);
    let rule = rule(width);
    let category = pad_right("CATEGORY", width);
    let articles = pad_left("ARTICLES", 9);
    let pct = pad_left("PCT", 7);
    let sum = pad_right("TOTAL", width);
    let count = decimal_text(total);
    let count = pad_left(count.as_str(), 9);
    let mut text = "Articles by category, ".to_owned();
    text.append(first);
    text.append(" .. ");
    text.append(last);
    text.append(" UTC\n\n");
    text.append(category.as_str());
    text.append("  ");
    text.append(articles.as_str());
    text.append("  ");
    text.append(pct.as_str());
    text.append("\n");
    text.append(rule.as_str());
    text.append("\n");
    text.append(body.as_str());
    text.append(rule.as_str());
    text.append("\n");
    text.append(sum.as_str());
    text.append("  ");
    text.append(count.as_str());
    text.append("\n");
    text
}

/// The model of a row holds what the row holds, and those of lists stand where the rows
/// and the texts stand.
pub proof fn law_table_models_are_faithful(
    row: TableRow,
    rows: Seq<TableRow>,
    texts: Seq<String>,
    i: int,
)
    ensures
        row@.label == row.label@,
        row@.count == row.count,
        row.share is None <==> row@.share is None,
        row.share matches Some((part, whole)) ==> row@.share == Some((part as int, whole as int)),
        table_row_views(rows).len() == rows.len(),
        0 <= i < rows.len() ==> table_row_views(rows)[i] == rows[i]@,
        text_views(texts).len() == texts.len(),
        0 <= i < texts.len() ==> text_views(texts)[i] == texts[i]@,
{
}

/// The table goes category by category: the rows of two lists of categories are those of
/// the first and then of the second.
pub proof fn law_table_goes_by_category(x: Seq<GroupView>, y: Seq<GroupView>, total: int)
    ensures
        all_rows(Seq::empty(), total).len() == 0,
        all_rows(x + y, total) == all_rows(x, total) + all_rows(y, total),
    decreases y.len(),
{
    if y.len() == 0 {
        assert(x + y =~= x);
        assert(all_rows(x, total) + all_rows(y, total) =~= all_rows(x, total));
    } else {
        law_table_goes_by_category(x, y.drop_last(), total);
        assert((x + y).drop_last() =~= x + y.drop_last());
        assert(all_rows(x + y, total) =~= all_rows(x, total) + all_rows(y, total));
    }
}

/// A category has its own row, a share of the grand total, and under it an indented row
/// for each of its publications in their order, a share of the category.
pub proof fn law_rows_of_category(g: GroupView, total: int)
    ensures
        ({
            let rows = all_rows(seq![g], total);
            &&& rows.len() == 1 + g.pubs.len()
            &&& rows[0].label == g.cat
            &&& rows[0].count == g.count
            &&& total > 0 ==> rows[0].share == Some((g.count, total))
            &&& total <= 0 ==> rows[0].share is None
            &&& forall|j: int|
                0 <= j < g.pubs.len() ==> {
                    &&& (#[trigger] rows[1 + j]).label == seq![' ', ' ', ' ', ' ']
                        + g.pubs[j].pubname
                    &&& rows[1 + j].count == g.pubs[j].count
                    &&& g.count > 0 ==> rows[1 + j].share == Some((g.pubs[j].count, g.count))
                    &&& g.count <= 0 ==> rows[1 + j].share is None
                }
        }),
{
    reveal_strlit("    ");
    let one = seq![g];
    assert(one.drop_last() =~= Seq::<GroupView>::empty());
    assert(all_rows(one.drop_last(), total) =~= Seq::<TableRowView>::empty());
    assert(one.last() == g);
    assert(all_rows(one, total) =~= group_rows(g, total));
    assert("    "@ =~= seq![' ', ' ', ' ', ' ']);
}

/// The first column is as wide as its longest label, and never less than its heading.
pub proof fn law_column_as_wide_as_needed(rows: Seq<TableRowView>)
    ensures
        label_width(rows) >= 8,
        forall|i: int| 0 <= i < rows.len() ==> (#[trigger] rows[i]).label.len() <= label_width(rows),
        label_width(rows) == 8 || exists|i: int|
            0 <= i < rows.len() && (#[trigger] rows[i]).label.len() == label_width(rows),
    decreases rows.len(),
{
    if rows.len() > 0 {
        let early = rows.drop_last();
        law_column_as_wide_as_needed(early);
        assert forall|i: int| 0 <= i < rows.len() implies (#[trigger] rows[i]).label.len()
            <= label_width(rows) by {
            if i < early.len() {
                assert(early[i] == rows[i]);
            }
        }
        if label_width(rows) != 8 {
            if rows.last().label.len() > label_width(early) {
                assert(rows[rows.len() - 1].label.len() == label_width(rows));
            } else {
                let i = choose|i: int|
                    0 <= i < early.len() && (#[trigger] early[i]).label.len() == label_width(early);
                assert(rows[i] == early[i]);
            }
        }
    }
}

/// The line between the parts of the table is made of dashes, with two spaces between
/// its three columns.
pub proof fn law_rule_has_three_columns(width: nat)
    ensures
        rule_line(width).len() == width + 20,
        forall|i: int|
            0 <= i < width + 20 ==> #[trigger] rule_line(width)[i] == if i == width || i == width + 1
                || i == width + 11 || i == width + 12 {
                ' '
            } else {
                '-'
            },
{
    reveal_strlit("  ");
}

/// A row whose parts fit their columns: the label on the left of the first, the count on
/// the right of the second, the percentage on the right of the third, and spaces between.
pub proof fn law_row_line_columns(row: TableRowView, percent: Seq<char>, width: nat)
    requires
        row.label.len() <= width,
        decimal(row.count).len() <= 9,
        percent.len() <= 6,
    ensures
        ({
            let line = row_line(row, percent, width);
            let count = decimal(row.count);
            let w = width as int;
            let n = row.label.len() as int;
            let c = w + 11 - count.len();
            let p = w + 19 - percent.len();
            &&& line.len() == w + 20
            &&& line.subrange(0, n) == row.label
            &&& forall|i: int| n <= i < c ==> #[trigger] line[i] == ' '
            &&& line.subrange(c, w + 11) == count
            &&& forall|i: int| w + 11 <= i < p ==> #[trigger] line[i] == ' '
            &&& line.subrange(p, w + 19) == percent
            &&& line[w + 19] == '%'
        }),
{
    reveal_strlit("  ");
    reveal_strlit("%");
    let line = row_line(row, percent, width);
    let count = decimal(row.count);
    let w = width as int;
    assert(line.subrange(0, row.label.len() as int) =~= row.label);
    assert(line.subrange(w + 11 - count.len(), w + 11) =~= count);
    assert(line.subrange(w + 19 - percent.len(), w + 19) =~= percent);
}

/// A row of the table, whatever the lengths of its parts: each is filled up to its
/// column, none is cut.
pub proof fn law_row_line_keeps_parts(row: TableRowView, percent: Seq<char>, width: nat)
    ensures
        row_line(row, percent, width) == padded_right(row.label, width) + seq![' ', ' ']
            + padded_left(decimal(row.count), 9) + seq![' ', ' '] + padded_left(percent, 6)
            + seq!['%'],
{
    reveal_strlit("  ");
    reveal_strlit("%");
    assert("  "@ =~= seq![' ', ' ']);
    assert("%"@ =~= seq!['%']);
}

/// Lines, each with a line feed.
pub open spec fn as_lines(lines: Seq<Seq<char>>) -> Seq<char> {
    lines.fold_left(Seq::<char>::empty(), |text: Seq<char>, line: Seq<char>| text + line + "\n"@)
}

proof fn lemma_as_lines_concat(x: Seq<Seq<char>>, y: Seq<Seq<char>>)
    ensures
        as_lines(x + y) == as_lines(x) + as_lines(y),
    decreases y.len(),
{
    if y.len() == 0 {
        assert(x + y =~= x);
        assert(as_lines(x) + as_lines(y) =~= as_lines(x));
    } else {
        lemma_as_lines_concat(x, y.drop_last());
        assert((x + y).drop_last() =~= x + y.drop_last());
        assert(as_lines(x + y) =~= as_lines(x) + as_lines(y));
    }
}

proof fn lemma_row_lines(rows: Seq<TableRowView>, percents: Seq<Seq<char>>, width: nat)
    requires
        rows.len() == percents.len(),
    ensures
        row_lines(rows, percents, width) == as_lines(
            Seq::new(rows.len(), |i: int| row_line(rows[i], percents[i], width)),
        ),
    decreases rows.len(),
{
    let lines = Seq::new(rows.len(), |i: int| row_line(rows[i], percents[i], width));
    if rows.len() > 0 {
        let r = rows.drop_last();
        let p = percents.drop_last();
        lemma_row_lines(r, p, width);
        assert(lines.drop_last() =~= Seq::new(r.len(), |i: int| row_line(r[i], p[i], width)));
    }
}

/// The table is these lines: a title with the two ends of the range, an empty line, the
/// headings, a rule, a line for each row with its own percentage, a rule, and the total.
pub proof fn law_table_lines(
    rows: Seq<TableRowView>,
    percents: Seq<Seq<char>>,
    total: int,
    first: Seq<char>,
    last: Seq<char>,
)
    requires
        rows.len() == percents.len(),
    ensures
        ({
            let width = label_width(rows);
            table_text(rows, percents, total, first, last) == as_lines(
                seq![
                    "Articles by category, "@ + first + " .. "@ + last + " UTC"@,
                    Seq::empty(),
                    padded_right("CATEGORY"@, width) + "  "@ + padded_left("ARTICLES"@, 9) + "  "@
                        + padded_left("PCT"@, 7),
                    rule_line(width),
                ] + Seq::new(rows.len(), |i: int| row_line(rows[i], percents[i], width)) + seq![
                    rule_line(width),
                    padded_right("TOTAL"@, width) + "  "@ + padded_left(decimal(total), 9),
                ],
            )
        }),
{
    let width = label_width(rows);
    let title = "Articles by category, "@ + first + " .. "@ + last + " UTC"@;
    let none = Seq::<char>::empty();
    let heads = padded_right("CATEGORY"@, width) + "  "@ + padded_left("ARTICLES"@, 9) + "  "@
        + padded_left("PCT"@, 7);
    let rule = rule_line(width);
    let sum = padded_right("TOTAL"@, width) + "  "@ + padded_left(decimal(total), 9);
    let top = seq![title, none, heads, rule];
    let middle = Seq::new(rows.len(), |i: int| row_line(rows[i], percents[i], width));
    let bottom = seq![rule, sum];
    lemma_as_lines_concat(top + middle, bottom);
    lemma_as_lines_concat(top, middle);
    lemma_row_lines(rows, percents, width);
    lemma_as_lines_four(title, none, heads, rule);
    lemma_as_lines_two(rule, sum);
    assert(" UTC\n\n"@ == " UTC"@ + "\n"@ + "\n"@) by {
        reveal_strlit("\n");
        reveal_strlit(" UTC");
        reveal_strlit(" UTC\n\n");
        assert(" UTC\n\n"@ =~= " UTC"@ + "\n"@ + "\n"@);
    }
    let start = "Articles by category, "@ + first + " .. "@ + last;
    lemma_title(start, " UTC\n\n"@, " UTC"@, "\n"@);
    let title_lines = title + "\n"@ + none + "\n"@;
    lemma_heads(
        title_lines,
        padded_right("CATEGORY"@, width),
        padded_left("ARTICLES"@, 9),
        padded_left("PCT"@, 7),
        "  "@,
        "\n"@,
        rule,
    );
    lemma_bottom(
        as_lines(top) + as_lines(middle),
        rule,
        padded_right("TOTAL"@, width),
        padded_left(decimal(total), 9),
        "  "@,
        "\n"@,
    );
}

proof fn lemma_title(start: Seq<char>, end: Seq<char>, utc: Seq<char>, nl: Seq<char>)
    requires
        end == utc + nl + nl,
    ensures
        start + end == start + utc + nl + Seq::<char>::empty() + nl,
{
    assert(start + end =~= start + utc + nl + Seq::<char>::empty() + nl);
}

proof fn lemma_heads(
    x: Seq<char>,
    a: Seq<char>,
    b: Seq<char>,
    c: Seq<char>,
    gap: Seq<char>,
    nl: Seq<char>,
    rule: Seq<char>,
)
    ensures
        x + a + gap + b + gap + c + nl + rule + nl == x + ((a + gap + b + gap + c) + nl + rule + nl),
{
    let heads = a + gap + b + gap + c;
    assert(x + a + gap + b + gap + c =~= x + heads);
    assert((x + heads) + nl + rule + nl =~= x + (heads + nl + rule + nl));
}

proof fn lemma_bottom(
    x: Seq<char>,
    rule: Seq<char>,
    a: Seq<char>,
    b: Seq<char>,
    gap: Seq<char>,
    nl: Seq<char>,
)
    ensures
        x + rule + nl + a + gap + b + nl == x + (rule + nl + (a + gap + b) + nl),
{
    let sum = a + gap + b;
    let y = x + rule + nl;
    assert(y + a + gap + b =~= y + sum);
    assert(y + sum + nl =~= x + (rule + nl + sum + nl));
}

proof fn lemma_as_lines_two(a: Seq<char>, b: Seq<char>)
    ensures
        as_lines(seq![a, b]) == a + "\n"@ + b + "\n"@,
{
    reveal_with_fuel(Seq::fold_left, 3);
    let lines = seq![a, b];
    assert(lines.drop_last() =~= seq![a]);
    assert(seq![a].drop_last() =~= Seq::<Seq<char>>::empty());
    assert(as_lines(seq![a]) =~= a + "\n"@);
}

proof fn lemma_as_lines_four(a: Seq<char>, b: Seq<char>, c: Seq<char>, d: Seq<char>)
    ensures
        as_lines(seq![a, b, c, d]) == a + "\n"@ + b + "\n"@ + (c + "\n"@ + d + "\n"@),
{
    lemma_as_lines_two(a, b);
    lemma_as_lines_two(c, d);
    lemma_as_lines_concat(seq![a, b], seq![c, d]);
    assert(seq![a, b] + seq![c, d] =~= seq![a, b, c, d]);
}

} // verus!
