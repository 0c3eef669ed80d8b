//! The aggregation that the database runs: which articles are counted, and by what.

use vstd::prelude::*;
use crate::moment::{in_range, millis_of, valid_moment, Moment};

verus! {

/// A BSON value, as far as the aggregation needs one. The fields of a document have an
/// order.
pub enum BsonTree {
    Text(Seq<char>),
    Int32(int),
    /// A time, in milliseconds since 1970-01-01 00:00:00.
    DateTime(int),
    List(Seq<BsonTree>),
    Document(Seq<(Seq<char>, BsonTree)>),
}

/// `mongodb::bson::Bson`.
#[verifier::external_type_specification]
#[verifier::external_body]
pub struct ExBson(mongodb::bson::Bson);

/// `mongodb::bson::Document`.
#[verifier::external_type_specification]
#[verifier::external_body]
pub struct ExDocument(mongodb::bson::Document);

/// What a `mongodb::bson::Bson` holds.
pub uninterp spec fn bson_tree(v: mongodb::bson::Bson) -> BsonTree;

/// The fields of a `mongodb::bson::Document`, in their order.
pub uninterp spec fn document_fields(d: mongodb::bson::Document) -> Seq<(Seq<char>, BsonTree)>;

/// `<mongodb::bson::Bson as From<&str>>::from`: the text as a BSON string.
#[verifier::external_body]
fn bson_text(s: &str) -> (v: mongodb::bson::Bson)
    ensures
        bson_tree(v) == BsonTree::Text(s@),
{
    mongodb::bson::Bson::from(s)
}

/// `<mongodb::bson::Bson as From<i32>>::from`: the number as a 32-bit BSON integer.
#[verifier::external_body]
fn bson_int(n: i32) -> (v: mongodb::bson::Bson)
    ensures
        bson_tree(v) == BsonTree::Int32(n as int),
{
    mongodb::bson::Bson::from(n)
}

/// `mongodb::bson::DateTime::from_millis`, as a BSON value: the time that many
/// milliseconds after 1970-01-01 00:00:00.
#[verifier::external_body]
fn bson_time(ms: i64) -> (v: mongodb::bson::Bson)
    ensures
        bson_tree(v) == BsonTree::DateTime(ms as int),
{
    mongodb::bson::Bson::DateTime(mongodb::bson::DateTime::from_millis(ms))
}

/// What each of some values holds.
pub open spec fn bson_trees(values: Seq<mongodb::bson::Bson>) -> Seq<BsonTree> {
    values.map_values(|v: mongodb::bson::Bson| bson_tree(v))
}

/// `mongodb::bson::Bson::Array`: the values, in their order, as a BSON array.
#[verifier::external_body]
fn bson_list(values: Vec<mongodb::bson::Bson>) -> (v: mongodb::bson::Bson)
    ensures
        bson_tree(v) == BsonTree::List(bson_trees(values@)),
{
    mongodb::bson::Bson::Array(values)
}

/// `<mongodb::bson::Bson as From<Document>>::from`: the document as a BSON value.
#[verifier::external_body]
fn bson_document(d: mongodb::bson::Document) -> (v: mongodb::bson::Bson)
    ensures
        bson_tree(v) == BsonTree::Document(document_fields(d)),
{
    mongodb::bson::Bson::from(d)
}

/// `mongodb::bson::Document::new`: a document without fields.
#[verifier::external_body]
fn empty_document() -> (d: mongodb::bson::Document)
    ensures
        document_fields(d) == Seq::<(Seq<char>, BsonTree)>::empty(),
{
    mongodb::bson::Document::new()
}

/// `mongodb::bson::Document::insert` of a field whose name is new: it comes last.
#[verifier::external_body]
fn insert_field(d: &mut mongodb::bson::Document, name: &str, v: mongodb::bson::Bson)
    requires
        forall|i: int|
            0 <= i < document_fields(*old(d)).len() ==> (#[trigger] document_fields(*old(d))[i]).0
                != name@,
    ensures
        document_fields(*final(d)) == document_fields(*old(d)).push((name@, bson_tree(v))),
{
    d.insert(name, v);
}

/// A document with one field.
pub open spec fn one_field(name: Seq<char>, tree: BsonTree) -> BsonTree {
    BsonTree::Document(seq![(name, tree)])
}

fn single(name: &str, v: mongodb::bson::Bson) -> (d: mongodb::bson::Document)
    ensures
        document_fields(d) == seq![(name@, bson_tree(v))],
{
    let mut d = empty_document();
    insert_field(&mut d, name, v);
    assert(document_fields(d) =~= seq![(name@, bson_tree(v))]);
    d
}

/// A field of the articles as a text; `(none)` for an article without it.
pub open spec fn text_of_field(field: Seq<char>) -> BsonTree {
    one_field(
        "$toString"@,
        one_field(
            "$ifNull"@,
            BsonTree::List(seq![BsonTree::Text(field), BsonTree::Text("(none)"@)]),
        ),
    )
}

fn field_text(field: &str) -> (v: mongodb::bson::Bson)
    ensures
        bson_tree(v) == text_of_field(field@),
{
    let mut choices: Vec<mongodb::bson::Bson> = Vec::new();
    choices.push(bson_text(field));
    choices.push(bson_text("(none)"));
    assert(bson_trees(choices@) =~= seq![BsonTree::Text(field@), BsonTree::Text("(none)"@)]);
    // The keys stay texts even where a stored value is not one.
    bson_document(single("$toString", bson_document(single("$ifNull", bson_list(choices)))))
}

/// What the articles are grouped by: the category and, where the report is split, the
/// publication.
pub open spec fn group_id(by_pubname: bool) -> Seq<(Seq<char>, BsonTree)> {
    let cat = seq![("cat"@, text_of_field("$cat"@))];
    if by_pubname {
        cat.push(("pubname"@, text_of_field("$pubname"@)))
    } else {
        cat
    }
}

/// The first stage: the articles published from `start` to `end`, both included, each
/// in milliseconds.
pub open spec fn match_stage(start: int, end: int) -> Seq<(Seq<char>, BsonTree)> {
    seq![
        (
            "$match"@,
            one_field(
                "pubdate"@,
                BsonTree::Document(
                    seq![
                        ("$gte"@, BsonTree::DateTime(start)),
                        ("$lte"@, BsonTree::DateTime(end)),
                    ],
                ),
            ),
        ),
    ]
}

/// The second stage: a row for each group, with the number of its articles.
pub open spec fn group_stage(by_pubname: bool) -> Seq<(Seq<char>, BsonTree)> {
    seq![
        (
            "$group"@,
            BsonTree::Document(
                seq![
                    ("_id"@, BsonTree::Document(group_id(by_pubname))),
                    ("count"@, one_field("$sum"@, BsonTree::Int32(1))),
                ],
            ),
        ),
    ]
}

/// The third stage: the largest groups first, and by their keys among equals.
pub open spec fn sort_stage() -> Seq<(Seq<char>, BsonTree)> {
    seq![
        (
            "$sort"@,
            BsonTree::Document(
                seq![("count"@, BsonTree::Int32(-1)), ("_id"@, BsonTree::Int32(1))],
            ),
        ),
    ]
}

/// The whole aggregation.
pub open spec fn stages(start: int, end: int, by_pubname: bool) -> Seq<
    Seq<(Seq<char>, BsonTree)>,
> {
    seq![match_stage(start, end), group_stage(by_pubname), sort_stage()]
}

/// The fields of some documents.
pub open spec fn all_fields(documents: Seq<mongodb::bson::Document>) -> Seq<
    Seq<(Seq<char>, BsonTree)>,
> {
    documents.map_values(|d: mongodb::bson::Document| document_fields(d))
}

/// The aggregation that counts the articles of a range by category and, where the
/// report is split, by publication.
pub fn pipeline(start: Moment, end: Moment, by_pubname: bool) -> (documents: Vec<
    mongodb::bson::Document,
>)
    requires
        valid_moment(start@),
        valid_moment(end@),
    ensures
        all_fields(documents@) == stages(millis_of(start@), millis_of(end@), by_pubname),
{
    proof {
        reveal_strlit("cat");
        reveal_strlit("pubname");
        reveal_strlit("$gte");
        reveal_strlit("$lte");
        reveal_strlit("_id");
        reveal_strlit("count");
        assert("cat"@.len() == 3 && "pubname"@.len() == 7);
        assert("$gte"@[1] != "$lte"@[1]);
        assert("_id"@.len() == 3 && "count"@.len() == 5);
    }
    let mut id = single("cat", field_text("$cat"));
    if by_pubname {
        insert_field(&mut id, "pubname", field_text("$pubname"));
    }
    assert(document_fields(id) =~= group_id(by_pubname));

    let mut bounds = single("$gte", bson_time(start.millis()));
    insert_field(&mut bounds, "$lte", bson_time(end.millis()));
    let matching = single("$match", bson_document(single("pubdate", bson_document(bounds))));
    assert(document_fields(bounds) =~= seq![
        ("$gte"@, BsonTree::DateTime(millis_of(start@))),
        ("$lte"@, BsonTree::DateTime(millis_of(end@))),
    ]);

    let mut group = single("_id", bson_document(id));
    insert_field(&mut group, "count", bson_document(single("$sum", bson_int(1))));
    let grouping = single("$group", bson_document(group));
    assert(document_fields(group) =~= seq![
        ("_id"@, BsonTree::Document(group_id(by_pubname))),
        ("count"@, one_field("$sum"@, BsonTree::Int32(1))),
    ]);

    let mut order = single("count", bson_int(-1));
    insert_field(&mut order, "_id", bson_int(1));
    let sorting = single("$sort", bson_document(order));
    assert(document_fields(order) =~= seq![
        ("count"@, BsonTree::Int32(-1)),
        ("_id"@, BsonTree::Int32(1)),
    ]);

    let mut documents: Vec<mongodb::bson::Document> = Vec::new();
    documents.push(matching);
    documents.push(grouping);
    documents.push(sorting);
    assert(all_fields(documents@) =~= stages(millis_of(start@), millis_of(end@), by_pubname));
    documents
}

/// What lists of values and of documents hold stands where these stand.
pub proof fn law_bson_models_are_faithful(
    values: Seq<mongodb::bson::Bson>,
    documents: Seq<mongodb::bson::Document>,
    i: int,
)
    ensures
        bson_trees(values).len() == values.len(),
        0 <= i < values.len() ==> bson_trees(values)[i] == bson_tree(values[i]),
        all_fields(documents).len() == documents.len(),
        0 <= i < documents.len() ==> all_fields(documents)[i] == document_fields(documents[i]),
{
}

/// Whether a time, in milliseconds, meets one condition of a query.
pub open spec fn meets(ms: int, condition: (Seq<char>, BsonTree)) -> bool {
    ||| condition.0 == "$gte"@ && (condition.1 matches BsonTree::DateTime(t) && ms >= t)
    ||| condition.0 == "$lte"@ && (condition.1 matches BsonTree::DateTime(t) && ms <= t)
}

/// Whether a time meets every one of some conditions.
pub open spec fn meets_all(ms: int, conditions: Seq<(Seq<char>, BsonTree)>) -> bool {
    forall|k: int| 0 <= k < conditions.len() ==> meets(ms, #[trigger] conditions[k])
}

/// Whether a stage lets an article with this publication date pass: it is a `$match` on
/// `pubdate` alone, and the date meets each of its conditions.
pub open spec fn lets_pass(stage: Seq<(Seq<char>, BsonTree)>, ms: int) -> bool {
    &&& stage.len() == 1
    &&& stage[0].0 == "$match"@
    &&& stage[0].1 matches BsonTree::Document(query)
    &&& query.len() == 1
    &&& query[0].0 == "pubdate"@
    &&& query[0].1 matches BsonTree::Document(conditions)
    &&& meets_all(ms, conditions)
}

/// The first stage lets pass exactly the articles of the range, both ends included,
/// however long the range is.
pub proof fn law_query_matches_range(start: int, end: int, by_pubname: bool, ms: int)
    ensures
        lets_pass(stages(start, end, by_pubname)[0], ms) <==> start <= ms <= end,
{
    reveal_strlit("$gte");
    reveal_strlit("$lte");
    assert("$gte"@[1] != "$lte"@[1]);
    let conditions = seq![("$gte"@, BsonTree::DateTime(start)), ("$lte"@, BsonTree::DateTime(end))];
    let query = seq![("pubdate"@, BsonTree::Document(conditions))];
    let stage = stages(start, end, by_pubname)[0];
    assert(stage[0].1 == BsonTree::Document(query));
    assert(query[0].1 == BsonTree::Document(conditions));
    assert(lets_pass(stage, ms) <==> meets_all(ms, conditions));
    if meets_all(ms, conditions) {
        assert(meets(ms, conditions[0]));
        assert(meets(ms, conditions[1]));
    }
    if start <= ms <= end {
        assert forall|k: int| 0 <= k < conditions.len() implies meets(
            ms,
            #[trigger] conditions[k],
        ) by {
            assert(k == 0 || k == 1);
        }
    }
}

/// The query for a range of moments lets pass exactly the articles of that range.
pub proof fn law_query_matches_moments(
    start: (int, int),
    end: (int, int),
    by_pubname: bool,
    ms: int,
)
    ensures
        lets_pass(stages(millis_of(start), millis_of(end), by_pubname)[0], ms) <==> in_range(
            ms,
            start,
            end,
        ),
{
    law_query_matches_range(millis_of(start), millis_of(end), by_pubname, ms);
}

/// The aggregation is the same three stages for every range: match, group and count, and
/// sort by count downwards and then by key. The split by publication adds the
/// publication to the key and changes nothing else.
pub proof fn law_aggregation_documents(start: int, end: int, by_pubname: bool)
    ensures
        ({
            let all = stages(start, end, by_pubname);
            let text_or_none = |f: Seq<char>|
                BsonTree::Document(
                    seq![
                        (
                            "$toString"@,
                            BsonTree::Document(
                                seq![
                                    (
                                        "$ifNull"@,
                                        BsonTree::List(
                                            seq![
                                                BsonTree::Text(f),
                                                BsonTree::Text("(none)"@),
                                            ],
                                        ),
                                    ),
                                ],
                            ),
                        ),
                    ],
                );
            let cat = ("cat"@, text_or_none("$cat"@));
            let publication = ("pubname"@, text_or_none("$pubname"@));
            let one = BsonTree::Document(seq![("$sum"@, BsonTree::Int32(1))]);
            &&& all.len() == 3
            &&& all[0].len() == 1 && all[0][0].0 == "$match"@
            &&& all[1].len() == 1 && all[1][0].0 == "$group"@
            &&& all[1][0].1 matches BsonTree::Document(group)
            &&& group.len() == 2
            &&& group[0].0 == "_id"@
            &&& group[0].1 == BsonTree::Document(
                if by_pubname {
                    seq![cat, publication]
                } else {
                    seq![cat]
                },
            )
            &&& group[1] == ("count"@, one)
            &&& all[2].len() == 1 && all[2][0].0 == "$sort"@
            &&& all[2][0].1 == BsonTree::Document(
                seq![("count"@, BsonTree::Int32(-1)), ("_id"@, BsonTree::Int32(1))],
            )
        }),
{
    let cat = seq![("cat"@, text_of_field("$cat"@))];
    let publication = ("pubname"@, text_of_field("$pubname"@));
    assert(cat.push(publication) =~= seq![cat[0], publication]);
}

} // verus!
