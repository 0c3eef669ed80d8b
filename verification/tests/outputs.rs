use catcount::csv::{quote, render_csv};
use catcount::groups::{CatGroup, PubCount};
use catcount::json::{render_json, report_value, report_with_bounds};
use catcount::moment::{date_range, Moment};
use catcount::table::{render_table, table_rows, table_with_heading};

fn group(cat: &str, count: i64, pubs: &[(&str, i64)]) -> CatGroup {
    CatGroup {
        cat: cat.to_string(),
        count,
        pubs: pubs
            .iter()
            .map(|(p, n)| PubCount { pubname: p.to_string(), count: *n })
            .collect(),
    }
}

fn week() -> (Moment, Moment) {
    date_range("2026-08-01", "2026-08-07").unwrap()
}

fn percents(groups: &Vec<CatGroup>, total: i64) -> Vec<String> {
    table_rows(groups, total)
        .iter()
        .map(|row| match row.share {
            Some((part, whole)) => format!("{:.2}", part as f64 * 100.0 / whole as f64),
            None => format!("{:.2}", 0.0),
        })
        .collect()
}

fn table(groups: &Vec<CatGroup>, total: i64) -> String {
    let (start, end) = week();
    render_table(&table_rows(groups, total), &percents(groups, total), total, start, end)
}

#[test]
fn a_table_of_categories() {
    let groups = vec![
        group("Other", 1357, &[]),
        group("International Affairs", 582, &[]),
        group("US Politics", 494, &[]),
    ];
    assert_eq!(
        table(&groups, 6929),
        "Articles by category, 2026-08-01 00:00:00 .. 2026-08-07 23:59:59 UTC\n\
         \n\
         CATEGORY                ARTICLES      PCT\n\
         ---------------------  ---------  -------\n\
         Other                       1357   19.58%\n\
         International Affairs        582    8.40%\n\
         US Politics                  494    7.13%\n\
         ---------------------  ---------  -------\n\
         TOTAL                       6929\n"
    );
}

#[test]
fn publications_are_shares_of_their_category() {
    let groups = vec![group("US Politics", 107, &[("NYTimes", 26), ("Guardian", 19)])];
    assert_eq!(
        table(&groups, 1133),
        "Articles by category, 2026-08-01 00:00:00 .. 2026-08-07 23:59:59 UTC\n\
         \n\
         CATEGORY       ARTICLES      PCT\n\
         ------------  ---------  -------\n\
         US Politics         107    9.44%\n    \
             NYTimes          26   24.30%\n    \
             Guardian         19   17.76%\n\
         ------------  ---------  -------\n\
         TOTAL              1133\n"
    );
}

#[test]
fn an_empty_table() {
    assert_eq!(
        table(&vec![], 0),
        "Articles by category, 2026-08-01 00:00:00 .. 2026-08-07 23:59:59 UTC\n\
         \n\
         CATEGORY   ARTICLES      PCT\n\
         --------  ---------  -------\n\
         --------  ---------  -------\n\
         TOTAL             0\n"
    );
}

#[test]
fn a_table_under_given_texts() {
    let groups = vec![group("\u{c9}conomie", 3, &[("FT", 1)])];
    let rows = table_rows(&groups, 12);
    let percents = vec!["25.00".to_string(), "33.33".to_string()];
    assert_eq!(
        table_with_heading(&rows, &percents, 12, "then", "now"),
        "Articles by category, then .. now UTC\n\
         \n\
         CATEGORY   ARTICLES      PCT\n\
         --------  ---------  -------\n\
         \u{c9}conomie          3   25.00%\n    \
             FT            1   33.33%\n\
         --------  ---------  -------\n\
         TOTAL            12\n"
    );
}

#[test]
fn a_report_under_given_texts() {
    let value =
        report_with_bounds(&vec![group("a", 1, &[])], 9, "then".to_string(), "now".to_string(), true);
    assert_eq!(value["start"], "then");
    assert_eq!(value["end"], "now");
    assert_eq!(value["total"], 9);
    assert_eq!(value["categories"][0]["publications"].as_array().unwrap().len(), 0);
    let keys: Vec<&String> = value.as_object().unwrap().keys().collect();
    assert_eq!(keys, ["start", "end", "total", "categories"]);
}

#[test]
fn a_share_of_nothing_is_no_share() {
    let rows = table_rows(&vec![group("a", 0, &[("p", 0)])], 0);
    assert_eq!(rows[0].share, None);
    assert_eq!(rows[1].share, None);
    assert_eq!(rows[1].label, "    p");
    let rows = table_rows(&vec![group("a", 4, &[("p", 3)])], 8);
    assert_eq!(rows[0].share, Some((4, 8)));
    assert_eq!(rows[1].share, Some((3, 4)));
}

#[test]
fn fields_are_quoted() {
    assert_eq!(quote("plain"), "\"plain\"");
    assert_eq!(quote("a \"b\", c\n"), "\"a \"\"b\"\", c\n\"");
    assert_eq!(quote(""), "\"\"");
}

#[test]
fn csv_by_category_and_by_publication() {
    let groups = vec![
        group("Arts, Books", 3, &[("FT", 2), ("The \"Sun\"", 1)]),
        group("Sports", 1, &[]),
    ];
    assert_eq!(render_csv(&groups, false), "category,count\n\"Arts, Books\",3\n\"Sports\",1\n");
    assert_eq!(
        render_csv(&groups, true),
        "category,pubname,count\n\"Arts, Books\",\"FT\",2\n\"Arts, Books\",\"The \"\"Sun\"\"\",1\n"
    );
    assert_eq!(render_csv(&vec![], true), "category,pubname,count\n");
}

#[test]
fn json_of_categories() {
    let (start, end) = week();
    let groups = vec![group("a \"b\"", 2, &[("FT", 2)])];
    let text = render_json(&groups, 5, start, end, false).ok().unwrap();
    assert_eq!(
        text,
        "{\n  \"start\": \"2026-08-01T00:00:00+00:00\",\n  \
           \"end\": \"2026-08-07T23:59:59.999+00:00\",\n  \
           \"total\": 5,\n  \
           \"categories\": [\n    {\n      \
               \"category\": \"a \\\"b\\\"\",\n      \
               \"count\": 2\n    }\n  ]\n}"
    );
}

#[test]
fn json_of_publications() {
    let (start, end) = week();
    let groups = vec![group("a", 3, &[("FT", 2), ("WSJ", 1)])];
    let value = report_value(&groups, 3, start, end, true);
    assert_eq!(value["total"], 3);
    assert_eq!(value["categories"][0]["category"], "a");
    assert_eq!(value["categories"][0]["publications"][1]["pubname"], "WSJ");
    assert_eq!(value["categories"][0]["publications"][1]["count"], 1);
    assert_eq!(value["categories"].as_array().unwrap().len(), 1);
    let keys: Vec<&String> = value["categories"][0].as_object().unwrap().keys().collect();
    assert_eq!(keys, ["category", "count", "publications"]);
}
