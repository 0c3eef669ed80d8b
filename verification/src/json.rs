//! JSON output: the report as a tree, and its text.

use vstd::prelude::*;
use crate::groups::{group_views, pub_views, CatGroup, GroupView, PubCount, PubView};
use crate::moment::{moment_in_rfc3339, valid_moment, Moment};

verus! {

/// A JSON value, as far as the report needs one. The fields of an object have an order.
pub enum JsonTree {
    Text(Seq<char>),
    Number(int),
    List(Seq<JsonTree>),
    Object(Seq<(Seq<char>, JsonTree)>),
}

/// `serde_json::Value`.
#[verifier::external_type_specification]
#[verifier::external_body]
pub struct ExJsonValue(serde_json::Value);

/// `serde_json::Error`.
#[verifier::external_type_specification]
#[verifier::external_body]
pub struct ExJsonError(serde_json::Error);

/// What a `serde_json::Value` holds.
pub uninterp spec fn json_tree(v: serde_json::Value) -> JsonTree;

/// `<serde_json::Value as From<String>>::from`: the text as a JSON string.
#[verifier::external_body]
fn json_text(s: String) -> (v: serde_json::Value)
    ensures
        json_tree(v) == JsonTree::Text(s@),
{
    serde_json::Value::from(s)
}

/// `<serde_json::Value as From<i64>>::from`: the number as a JSON number.
#[verifier::external_body]
fn json_number(n: i64) -> (v: serde_json::Value)
    ensures
        json_tree(v) == JsonTree::Number(n as int),
{
    serde_json::Value::from(n)
}

/// What each of some values holds.
pub open spec fn json_trees(values: Seq<serde_json::Value>) -> Seq<JsonTree> {
    values.map_values(|v: serde_json::Value| json_tree(v))
}

/// `<serde_json::Value as From<Vec<Value>>>::from`: the values, in their order, as a
/// JSON array.
#[verifier::external_body]
fn json_list(values: Vec<serde_json::Value>) -> (v: serde_json::Value)
    ensures
        json_tree(v) == JsonTree::List(json_trees(values@)),
{
    serde_json::Value::from(values)
}

/// The names of some fields and what their values hold.
pub open spec fn json_fields(fields: Seq<(String, serde_json::Value)>) -> Seq<
    (Seq<char>, JsonTree),
> {
    fields.map_values(|f: (String, serde_json::Value)| (f.0@, json_tree(f.1)))
}

/// `<serde_json::Value as FromIterator<(String, Value)>>::from_iter`: the fields, whose
/// names all differ, as a JSON object that keeps their order, as serde_json does with
/// its feature `preserve_order`.
#[verifier::external_body]
fn json_object(fields: Vec<(String, serde_json::Value)>) -> (v: serde_json::Value)
    requires
        forall|i: int, j: int|
            0 <= i < j < fields@.len() ==> (#[trigger] fields@[i]).0@ != (#[trigger] fields@[j]).0@,
    ensures
        json_tree(v) == JsonTree::Object(json_fields(fields@)),
{
    serde_json::Value::from_iter(fields)
}

/// What `serde_json::to_string_pretty` makes of a value; `None` where it fails.
pub uninterp spec fn pretty_text(tree: JsonTree) -> Option<Seq<char>>;

/// `serde_json::to_string_pretty` of a value: its indented text. The result depends on
/// what the value holds alone; the layout and the escapes are named, not stated.
#[verifier::external_body]
fn pretty(v: &serde_json::Value) -> (out: Result<String, serde_json::Error>)
    ensures
        out is Ok <==> pretty_text(json_tree(*v)) is Some,
        out matches Ok(text) ==> pretty_text(json_tree(*v)) == Some(text@),
{
    serde_json::to_string_pretty(v)
}

/// The report could not be written as text.
pub struct JsonError {
    pub cause: serde_json::Error,
}

/// A publication: its name and its articles.
pub open spec fn pub_tree(p: PubView) -> JsonTree {
    JsonTree::Object(
        seq![
            ("pubname"@, JsonTree::Text(p.pubname)),
            ("count"@, JsonTree::Number(p.count)),
        ],
    )
}

/// A category: its name and its articles and, where the report is split, its
/// publications.
pub open spec fn group_tree(g: GroupView, by_pubname: bool) -> JsonTree {
    let own = seq![
        ("category"@, JsonTree::Text(g.cat)),
        ("count"@, JsonTree::Number(g.count)),
    ];
    JsonTree::Object(
        if by_pubname {
            own.push(
                (
                    "publications"@,
                    JsonTree::List(g.pubs.map_values(|p: PubView| pub_tree(p))),
                ),
            )
        } else {
            own
        },
    )
}

/// The report: the texts of the two ends of the range, the total, and the categories.
pub open spec fn report_tree(
    groups: Seq<GroupView>,
    total: int,
    first: Seq<char>,
    last: Seq<char>,
    by_pubname: bool,
) -> JsonTree {
    JsonTree::Object(
        seq![
            ("start"@, JsonTree::Text(first)),
            ("end"@, JsonTree::Text(last)),
            ("total"@, JsonTree::Number(total)),
            (
                "categories"@,
                JsonTree::List(groups.map_values(|g: GroupView| group_tree(g, by_pubname))),
            ),
        ],
    )
}

proof fn lemma_json_trees_push(values: Seq<serde_json::Value>, v: serde_json::Value)
    ensures
        json_trees(values.push(v)) == json_trees(values).push(json_tree(v)),
{
    assert(json_trees(values.push(v)) =~= json_trees(values).push(json_tree(v)));
}

fn pub_value(p: &PubCount) -> (v: serde_json::Value)
    ensures
        json_tree(v) == pub_tree(p@),
{
    let mut fields: Vec<(String, serde_json::Value)> = Vec::new();
    fields.push(("pubname".to_owned(), json_text(p.pubname.clone())));
    fields.push(("count".to_owned(), json_number(p.count)));
    proof {
        reveal_strlit("pubname");
        reveal_strlit("count");
        assert("pubname"@.len() == 7 && "count"@.len() == 5);
        assert(json_fields(fields@) =~= seq![
            ("pubname"@, JsonTree::Text(p@.pubname)),
            ("count"@, JsonTree::Number(p@.count)),
        ]);
    }
    json_object(fields)
}

fn group_value(g: &CatGroup, by_pubname: bool) -> (v: serde_json::Value)
    ensures
        json_tree(v) == group_tree(g@, by_pubname),
{
    let mut fields: Vec<(String, serde_json::Value)> = Vec::new();
    fields.push(("category".to_owned(), json_text(g.cat.clone())));
    fields.push(("count".to_owned(), json_number(g.count)));
    proof {
        reveal_strlit("category");
        reveal_strlit("count");
        reveal_strlit("publications");
        assert("category"@.len() == 8 && "count"@.len() == 5 && "publications"@.len() == 12);
    }
    let ghost own = seq![
        ("category"@, JsonTree::Text(g@.cat)),
        ("count"@, JsonTree::Number(g@.count)),
    ];
    assert(json_fields(fields@) =~= own);
    if by_pubname {
        let ghost trees = g@.pubs.map_values(|p: PubView| pub_tree(p));
        let mut list: Vec<serde_json::Value> = Vec::new();
        let mut i: usize = 0;
        while i < g.pubs.len()
            invariant
                i <= g.pubs@.len(),
                g@.pubs == pub_views(g.pubs@),
                trees == g@.pubs.map_values(|p: PubView| pub_tree(p)),
                json_trees(list@) =~= trees.take(i as int),
            decreases g.pubs@.len() - i,
        {
            let v = pub_value(&g.pubs[i]);
            proof {
                assert(trees[i as int] == json_tree(v));
                lemma_json_trees_push(list@, v);
                assert(trees.take(i + 1) =~= trees.take(i as int).push(json_tree(v)));
            }
            list.push(v);
            i += 1;
        }
        assert(trees.take(trees.len() as int) =~= trees);
        fields.push(("publications".to_owned(), json_list(list)));
        assert(json_fields(fields@) =~= own.push(("publications"@, JsonTree::List(trees))));
    }
    json_object(fields)
}

/// The report of a range as a JSON value. The two ends are in the form of RFC 3339.
pub fn report_value(
    groups: &Vec<CatGroup>,
    total: i64,
    start: Moment,
    end: Moment,
    by_pubname: bool,
) -> (v: serde_json::Value)
    requires
        valid_moment(start@),
        valid_moment(end@),
    ensures
        json_tree(v) == report_tree(
            group_views(groups@),
            total as int,
            moment_in_rfc3339(start@),
            moment_in_rfc3339(end@),
            by_pubname,
        ),
{
    report_with_bounds(groups, total, start.to_zoned(), end.to_zoned(), by_pubname)
}

/// The report as a JSON value, with the texts of the two ends of the range.
pub fn report_with_bounds(
    groups: &Vec<CatGroup>,
    total: i64,
    first: String,
    last: String,
    by_pubname: bool,
) -> (v: serde_json::Value)
    ensures
        json_tree(v) == report_tree(
            group_views(groups@),
            total as int,
            first@,
            last@,
            by_pubname,
        ),
{
    let ghost (from, to) = (first@, last@);
    let ghost all = group_views(groups@);
    let ghost trees = all.map_values(|g: GroupView| group_tree(g, by_pubname));
    let mut list: Vec<serde_json::Value> = Vec::new();
    let mut i: usize = 0;
    while i < groups.len()
        invariant
            i <= groups@.len(),
            all == group_views(groups@),
            trees == all.map_values(|g: GroupView| group_tree(g, by_pubname)),
            json_trees(list@) =~= trees.take(i as int),
        decreases groups@.len() - i,
    {
        let v = group_value(&groups[i], by_pubname);
        proof {
            assert(trees[i as int] == json_tree(v));
            lemma_json_trees_push(list@, v);
            assert(trees.take(i + 1) =~= trees.take(i as int).push(json_tree(v)));
        }
        list.push(v);
        i += 1;
    }
    assert(trees.take(trees.len() as int) =~= trees);
    let mut fields: Vec<(String, serde_json::Value)> = Vec::new();
    fields.push(("start".to_owned(), json_text(first)));
    fields.push(("end".to_owned(), json_text(last)));
    fields.push(("total".to_owned(), json_number(total)));
    fields.push(("categories".to_owned(), json_list(list)));
    proof {
        reveal_strlit("start");
        reveal_strlit("end");
        reveal_strlit("total");
        reveal_strlit("categories");
        assert("start"@.len() == 5 && "end"@.len() == 3 && "total"@.len() == 5
            && "categories"@.len() == 10);
        assert("start"@[0] != "total"@[0]);
        assert(json_fields(fields@) =~= seq![
            ("start"@, JsonTree::Text(from)),
            ("end"@, JsonTree::Text(to)),
            ("total"@, JsonTree::Number(total as int)),
            ("categories"@, JsonTree::List(trees)),
        ]);
    }
    json_object(fields)
}

/// The text of the report, without a line feed at its end.
pub fn render_json(
    groups: &Vec<CatGroup>,
    total: i64,
    start: Moment,
    end: Moment,
    by_pubname: bool,
) -> (out: Result<String, JsonError>)
    requires
        valid_moment(start@),
        valid_moment(end@),
    ensures
        ({
            let written = pretty_text(
                report_tree(
                    group_views(groups@),
                    total as int,
                    moment_in_rfc3339(start@),
                    moment_in_rfc3339(end@),
                    by_pubname,
                ),
            );
            &&& out is Ok <==> written is Some
            &&& out matches Ok(text) ==> written == Some(text@)
        }),
{
    let v = report_value(groups, total, start, end, by_pubname);
    match pretty(&v) {
        Ok(text) => Ok(text),
        Err(cause) => Err(JsonError { cause }),
    }
}

/// What lists of values and of fields hold stands where these stand.
pub proof fn law_json_models_are_faithful(
    values: Seq<serde_json::Value>,
    fields: Seq<(String, serde_json::Value)>,
    i: int,
)
    ensures
        json_trees(values).len() == values.len(),
        0 <= i < values.len() ==> json_trees(values)[i] == json_tree(values[i]),
        json_fields(fields).len() == fields.len(),
        0 <= i < fields.len() ==> json_fields(fields)[i] == (fields[i].0@, json_tree(fields[i].1)),
{
}

/// The report has the two ends of the range, the total, and an entry for each category
/// in their order, and nothing else.
pub proof fn law_report_has_every_category(
    groups: Seq<GroupView>,
    total: int,
    first: Seq<char>,
    last: Seq<char>,
    by_pubname: bool,
)
    ensures
        report_tree(groups, total, first, last, by_pubname) matches JsonTree::Object(fields) && {
            &&& fields.len() == 4
            &&& fields[0] == ("start"@, JsonTree::Text(first))
            &&& fields[1] == ("end"@, JsonTree::Text(last))
            &&& fields[2] == ("total"@, JsonTree::Number(total))
            &&& fields[3].0 == "categories"@
            &&& fields[3].1 matches JsonTree::List(entries)
            &&& entries.len() == groups.len()
            &&& forall|i: int|
                0 <= i < groups.len() ==> #[trigger] entries[i] == group_tree(groups[i], by_pubname)
        },
{
}

/// The entry of a category has its name and its own count, whether the report is split
/// or not. The split adds its publications, each with its name and its count in their
/// order, and changes no other field.
pub proof fn law_entry_has_its_own_count(g: GroupView, by_pubname: bool)
    ensures
        group_tree(g, by_pubname) matches JsonTree::Object(fields) && {
            &&& fields.len() == if by_pubname {
                3nat
            } else {
                2nat
            }
            &&& fields[0] == ("category"@, JsonTree::Text(g.cat))
            &&& fields[1] == ("count"@, JsonTree::Number(g.count))
            &&& by_pubname ==> {
                &&& fields[2].0 == "publications"@
                &&& fields[2].1 matches JsonTree::List(pubs)
                &&& pubs.len() == g.pubs.len()
                &&& forall|j: int|
                    0 <= j < pubs.len() ==> #[trigger] pubs[j] == JsonTree::Object(
                        seq![
                            ("pubname"@, JsonTree::Text(g.pubs[j].pubname)),
                            ("count"@, JsonTree::Number(g.pubs[j].count)),
                        ],
                    )
            }
        },
{
}

} // verus!
