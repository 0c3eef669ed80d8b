use catcount::groups::{build_groups, checked_build_groups, CatGroup, GroupKey, GroupRow, PubCount};
use catcount::select::{grand_total, select, summarize};

fn row(cat: &str, pubname: Option<&str>, count: i64) -> GroupRow {
    GroupRow { key: GroupKey { cat: cat.to_string(), pubname: pubname.map(|p| p.to_string()) }, count }
}

fn group(cat: &str, count: i64, pubs: &[(&str, i64)]) -> CatGroup {
    CatGroup {
        cat: cat.to_string(),
        count,
        pubs: pubs
            .iter()
            .map(|(p, n)| PubCount { pubname: p.to_string(), count: *n })
            .collect(),
    }
}

fn variants() -> Vec<GroupRow> {
    vec![
        row("US Politics", None, 5),
        row("Sports", None, 9),
        row("us politics.", None, 2),
        row("Us Politics", None, 4),
        row(" ", None, 1),
        row("Arts", None, 9),
    ]
}

#[test]
fn each_label_is_a_category_of_its_own() {
    assert_eq!(
        build_groups(variants(), false),
        vec![
            group("Arts", 9, &[]),
            group("Sports", 9, &[]),
            group("US Politics", 5, &[]),
            group("Us Politics", 4, &[]),
            group("us politics.", 2, &[]),
            group(" ", 1, &[]),
        ]
    );
}

#[test]
fn merged_variants_bear_the_most_common_spelling() {
    assert_eq!(
        build_groups(variants(), true),
        vec![
            group("US Politics", 11, &[]),
            group("Arts", 9, &[]),
            group("Sports", 9, &[]),
            group(" ", 1, &[]),
        ]
    );
}

#[test]
fn a_leading_period_keeps_categories_apart() {
    let rows = vec![row(".NET", None, 3), row("NET", None, 2), row(".net.", None, 1)];
    assert_eq!(build_groups(rows, true), vec![group(".NET", 4, &[]), group("NET", 2, &[])]);
}

#[test]
fn the_most_common_spelling_counts_all_its_publications() {
    let rows = vec![
        row("Tech", Some("FT"), 5),
        row("tech", Some("FT"), 3),
        row("tech", Some("WSJ"), 4),
    ];
    assert_eq!(build_groups(rows, true), vec![group("tech", 12, &[("FT", 8), ("WSJ", 4)])]);
}

#[test]
fn the_first_of_equally_common_spellings_is_kept() {
    let rows = vec![row("b", None, 2), row("B", None, 2), row("b.", None, 1)];
    assert_eq!(build_groups(rows, true), vec![group("b", 5, &[])]);
    let rows = vec![row("X", None, 0), row("x", None, 0)];
    assert_eq!(build_groups(rows, true), vec![group("X", 0, &[])]);
}

#[test]
fn publications_come_by_size_and_then_by_name() {
    let rows = vec![
        row("US Politics", Some("WSJ"), 10),
        row("US Politics", Some("Guardian"), 19),
        row("US Politics", Some("NYTimes"), 26),
        row("US Politics", Some("FT"), 10),
        row("US politics", Some("FT"), 3),
    ];
    let groups = build_groups(rows, true);
    assert_eq!(
        groups,
        vec![group(
            "US Politics",
            68,
            &[("NYTimes", 26), ("Guardian", 19), ("FT", 13), ("WSJ", 10)]
        )]
    );
    let split: i64 = groups[0].pubs.iter().map(|p| p.count).sum();
    assert_eq!(split, groups[0].count);
}

#[test]
fn publications_that_contribute_nothing_are_omitted() {
    let rows = vec![row("Arts", Some("FT"), 0), row("Arts", Some("WSJ"), 2)];
    assert_eq!(build_groups(rows, false), vec![group("Arts", 2, &[("WSJ", 2)])]);
}

#[test]
fn no_rows_make_no_categories() {
    assert_eq!(build_groups(vec![], true), vec![]);
    assert_eq!(grand_total(&vec![]), Some(0));
}

#[test]
fn sums_that_cannot_be_held_are_refused() {
    let too_many = || vec![row("a", None, i64::MAX), row("a", None, 1)];
    assert_eq!(checked_build_groups(too_many(), false), None);
    assert_eq!(summarize(too_many(), false, 0, None), None);
    let on_the_way = vec![row("a", None, i64::MAX), row("a", None, 1), row("a", None, -5)];
    assert_eq!(checked_build_groups(on_the_way, false), None);
    let apart = || vec![row("a", None, i64::MAX), row("b", None, 1)];
    assert!(checked_build_groups(apart(), false).is_some());
    assert_eq!(summarize(apart(), false, 0, None), None);
    let publication = vec![
        row("a", Some("p"), i64::MAX),
        row("a", Some("q"), -2),
        row("a", Some("p"), 1),
    ];
    assert_eq!(checked_build_groups(publication, false), None);
}

#[test]
fn selection_trims_categories_and_not_the_total() {
    let rows = || {
        vec![
            row("Other", Some("FT"), 4),
            row("Other", Some("WSJ"), 3),
            row("Sports", Some("FT"), 5),
            row("Arts", Some("FT"), 1),
        ]
    };
    let all = summarize(rows(), false, 0, None).unwrap();
    assert_eq!(all.total, 13);
    assert_eq!(all.groups.len(), 3);

    let few = summarize(rows(), false, 2, Some(1)).unwrap();
    assert_eq!(few.total, 13);
    assert_eq!(few.groups, vec![group("Other", 7, &[("FT", 4), ("WSJ", 3)])]);

    let large = summarize(rows(), false, 5, Some(9)).unwrap();
    assert_eq!(large.total, 13);
    assert_eq!(large.groups.len(), 2);
    assert_eq!(large.groups[1].cat, "Sports");

    let merged = summarize(rows(), true, 0, None).unwrap();
    assert_eq!(merged.total, all.total);
}

#[test]
fn a_limit_of_nothing_shows_nothing() {
    assert_eq!(select(vec![group("a", 3, &[])], 0, Some(0)), vec![]);
    assert_eq!(select(vec![group("a", 3, &[])], 4, None), vec![]);
    assert_eq!(select(vec![group("a", 3, &[])], 3, Some(1)), vec![group("a", 3, &[])]);
}

#[test]
fn the_order_of_rows_does_not_matter_without_merging() {
    let rows = |backwards: bool| {
        let mut rows = vec![
            row("Arts", Some("FT"), 2),
            row("Sports", Some("WSJ"), 3),
            row("Arts", Some("WSJ"), 1),
            row("Arts", Some("FT"), 1),
        ];
        if backwards {
            rows.reverse();
        }
        rows
    };
    assert_eq!(build_groups(rows(false), false), build_groups(rows(true), false));
}

#[test]
fn merging_adds_no_categories() {
    assert!(build_groups(variants(), true).len() <= build_groups(variants(), false).len());
    let distinct = || vec![row("Tech", None, 1), row("Technology", None, 2), row(".NET", None, 2)];
    assert_eq!(build_groups(distinct(), true), build_groups(distinct(), false));
}
