//! What the categories and the selection say of the rows, in terms of the rows alone:
//! which articles are added up, under what name, in what order, and what is shown.

use vstd::prelude::*;
use crate::buckets::lemma_bucket_rows;
use crate::groups::{
    bucket, count_sum, describes, fits, group_ahead, group_total, group_views, grouping, key_of,
    leading, pub_ahead, pub_log, pub_views, row_views, running_sums_fit, spelling_log, step_fits,
    CatGroup, GroupRow, GroupView, PubCount, PubView, RowView,
};
use crate::label::normal_key;
use crate::laws::{law_grouping_unique, law_total_covers_all_rows, lemma_name_is_row};
use crate::select::{at_least, limit, selected, sums_fit, totals_fit};
use crate::tally::{lemma_names_of, lemma_total_for_absent, names_of, tally, total_for};
use crate::text::text_lt;

verus! {

/// The articles of the rows that are picked.
pub open spec fn articles(rows: Seq<RowView>, pick: spec_fn(RowView) -> bool) -> int {
    rows.filter(pick).fold_left(0, |n: int, r: RowView| n + r.count)
}

/// Whether two labels belong to one category: where labels are merged, labels with the
/// same merge key do, and otherwise only a label and itself.
pub open spec fn together(a: Seq<char>, b: Seq<char>, normalize: bool) -> bool {
    if normalize {
        normal_key(a) == normal_key(b)
    } else {
        a == b
    }
}

proof fn lemma_articles_step(rows: Seq<RowView>, pick: spec_fn(RowView) -> bool)
    ensures
        rows.len() == 0 ==> articles(rows, pick) == 0,
        rows.len() > 0 ==> articles(rows, pick) == articles(rows.drop_last(), pick) + if pick(
            rows.last(),
        ) {
            rows.last().count
        } else {
            0
        },
{
    reveal(Seq::filter);
    if rows.len() > 0 {
        let kept = rows.drop_last().filter(pick);
        assert(kept.push(rows.last()).drop_last() =~= kept);
    }
}

proof fn lemma_articles_same(
    rows: Seq<RowView>,
    pick: spec_fn(RowView) -> bool,
    other: spec_fn(RowView) -> bool,
)
    requires
        forall|i: int| 0 <= i < rows.len() ==> pick(#[trigger] rows[i]) == other(rows[i]),
    ensures
        articles(rows, pick) == articles(rows, other),
    decreases rows.len(),
{
    lemma_articles_step(rows, pick);
    lemma_articles_step(rows, other);
    if rows.len() > 0 {
        let early = rows.drop_last();
        assert forall|i: int| 0 <= i < early.len() implies pick(#[trigger] early[i]) == other(
            early[i],
        ) by {
            assert(early[i] == rows[i]);
        }
        lemma_articles_same(early, pick, other);
        assert(pick(rows[rows.len() - 1]) == other(rows[rows.len() - 1]));
    }
}

proof fn lemma_bucket_articles(
    rows: Seq<RowView>,
    normalize: bool,
    key: Seq<char>,
    p: Seq<char>,
)
    ensures
        count_sum(bucket(rows, normalize, key)) == articles(
            rows,
            |r: RowView| key_of(r.cat, normalize) == key,
        ),
        total_for(pub_log(bucket(rows, normalize, key)), p) == articles(
            rows,
            |r: RowView| key_of(r.cat, normalize) == key && r.pubname == Some(p),
        ),
        total_for(spelling_log(bucket(rows, normalize, key)), p) == articles(
            rows,
            |r: RowView| key_of(r.cat, normalize) == key && r.cat == p,
        ),
    decreases rows.len(),
{
    let own = |r: RowView| key_of(r.cat, normalize) == key;
    let by_pub = |r: RowView| key_of(r.cat, normalize) == key && r.pubname == Some(p);
    let by_cat = |r: RowView| key_of(r.cat, normalize) == key && r.cat == p;
    lemma_articles_step(rows, own);
    lemma_articles_step(rows, by_pub);
    lemma_articles_step(rows, by_cat);
    if rows.len() > 0 {
        let early = rows.drop_last();
        lemma_bucket_articles(early, normalize, key, p);
        let b = bucket(early, normalize, key);
        let row = rows.last();
        if key_of(row.cat, normalize) == key {
            assert(b.push(row).drop_last() =~= b);
            assert(spelling_log(b.push(row)) =~= spelling_log(b).push((row.cat, row.count)));
            assert(spelling_log(b.push(row)).drop_last() =~= spelling_log(b));
            if row.pubname is Some {
                let log = pub_log(b);
                assert(log.push((row.pubname->0, row.count)).drop_last() =~= log);
            }
        }
    }
}

/// The models of rows, categories and publications hold what these hold, one for one.
pub proof fn law_models_are_faithful(
    row: GroupRow,
    group: CatGroup,
    publication: PubCount,
    rows: Seq<GroupRow>,
    groups: Seq<CatGroup>,
    pubs: Seq<PubCount>,
    i: int,
)
    ensures
        row@.cat == row.key.cat@,
        row@.count == row.count,
        row.key.pubname is None <==> row@.pubname is None,
        row.key.pubname matches Some(p) ==> row@.pubname == Some(p@),
        group@.cat == group.cat@,
        group@.count == group.count,
        group@.pubs.len() == group.pubs@.len(),
        0 <= i < group.pubs@.len() ==> group@.pubs[i] == group.pubs@[i]@,
        publication@.pubname == publication.pubname@,
        publication@.count == publication.count,
        row_views(rows).len() == rows.len(),
        0 <= i < rows.len() ==> row_views(rows)[i] == rows[i]@,
        group_views(groups).len() == groups.len(),
        0 <= i < groups.len() ==> group_views(groups)[i] == groups[i]@,
        pub_views(pubs).len() == pubs.len(),
        0 <= i < pubs.len() ==> pub_views(pubs)[i] == pubs[i]@,
{
}

/// The count of a category is the sum over exactly the rows of its label or, where
/// labels are merged, of all its spellings.
pub proof fn law_category_counts_its_rows(
    rows: Seq<RowView>,
    normalize: bool,
    groups: Seq<GroupView>,
    i: int,
)
    requires
        grouping(rows, normalize, groups),
        0 <= i < groups.len(),
    ensures
        groups[i].count == articles(rows, |r: RowView| together(r.cat, groups[i].cat, normalize)),
{
    let key = key_of(groups[i].cat, normalize);
    assert(describes(groups[i], bucket(rows, normalize, key)));
    lemma_bucket_articles(rows, normalize, key, Seq::empty());
    lemma_articles_same(
        rows,
        |r: RowView| key_of(r.cat, normalize) == key,
        |r: RowView| together(r.cat, groups[i].cat, normalize),
    );
}

/// A category lists a publication with a count exactly where that count is the sum over
/// the category's rows of that publication, and is not nothing.
pub proof fn law_publication_counts_its_rows(
    rows: Seq<RowView>,
    normalize: bool,
    groups: Seq<GroupView>,
    i: int,
    name: Seq<char>,
    count: int,
)
    requires
        grouping(rows, normalize, groups),
        0 <= i < groups.len(),
    ensures
        groups[i].pubs.contains(PubView { pubname: name, count }) <==> count != 0 && count
            == articles(
            rows,
            |r: RowView| together(r.cat, groups[i].cat, normalize) && r.pubname == Some(name),
        ),
{
    let key = key_of(groups[i].cat, normalize);
    let b = bucket(rows, normalize, key);
    let log = pub_log(b);
    let p = PubView { pubname: name, count };
    assert(describes(groups[i], b));
    assert(groups[i].pubs.contains(p) <==> p.count != 0 && tally(log).contains(
        (p.pubname, p.count),
    ));
    lemma_bucket_articles(rows, normalize, key, name);
    lemma_articles_same(
        rows,
        |r: RowView| key_of(r.cat, normalize) == key && r.pubname == Some(name),
        |r: RowView| together(r.cat, groups[i].cat, normalize) && r.pubname == Some(name),
    );
    if tally(log).contains((name, count)) {
        let k = choose|k: int| 0 <= k < tally(log).len() && tally(log)[k] == (name, count);
        assert(names_of(log)[k] == name);
    }
    if count != 0 && count == total_for(log, name) {
        if !names_of(log).contains(name) {
            lemma_total_for_absent(log, name);
        }
        let k = choose|k: int| 0 <= k < names_of(log).len() && names_of(log)[k] == name;
        assert(tally(log)[k] == (name, count));
    }
}

/// Categories come by their counts, the largest first, and those with the same count by
/// their labels.
pub proof fn law_largest_first(
    rows: Seq<RowView>,
    normalize: bool,
    groups: Seq<GroupView>,
    i: int,
    j: int,
)
    requires
        grouping(rows, normalize, groups),
        0 <= i < j < groups.len(),
    ensures
        groups[i].count >= groups[j].count,
        groups[i].count == groups[j].count ==> text_lt(groups[i].cat, groups[j].cat),
{
    let lt = |a: GroupView, b: GroupView| group_ahead(a, b);
    assert(lt(groups[i], groups[j]));
}

/// The publications of a category come by their counts, the largest first, and those
/// with the same count by their names.
pub proof fn law_largest_publications_first(
    rows: Seq<RowView>,
    normalize: bool,
    groups: Seq<GroupView>,
    i: int,
    p: int,
    q: int,
)
    requires
        grouping(rows, normalize, groups),
        0 <= i < groups.len(),
    ensures
        0 <= p < q < groups[i].pubs.len() ==> groups[i].pubs[p].count >= groups[i].pubs[q].count,
        0 <= p < q < groups[i].pubs.len() && groups[i].pubs[p].count == groups[i].pubs[q].count
            ==> text_lt(groups[i].pubs[p].pubname, groups[i].pubs[q].pubname),
{
    assert(describes(groups[i], bucket(rows, normalize, key_of(groups[i].cat, normalize))));
    if 0 <= p < q < groups[i].pubs.len() {
        let lt = |a: PubView, b: PubView| pub_ahead(a, b);
        assert(lt(groups[i].pubs[p], groups[i].pubs[q]));
    }
}

/// Every row has a category, and no two categories belong together.
pub proof fn law_each_row_has_its_category(
    rows: Seq<RowView>,
    normalize: bool,
    groups: Seq<GroupView>,
)
    requires
        grouping(rows, normalize, groups),
    ensures
        forall|r: int|
            0 <= r < rows.len() ==> exists|i: int|
                0 <= i < groups.len() && together(
                    (#[trigger] groups[i]).cat,
                    (#[trigger] rows[r]).cat,
                    normalize,
                ),
        forall|i: int, j: int|
            0 <= i < j < groups.len() ==> !together(
                (#[trigger] groups[i]).cat,
                (#[trigger] groups[j]).cat,
                normalize,
            ),
{
    assert forall|r: int| 0 <= r < rows.len() implies exists|i: int|
        0 <= i < groups.len() && together(
            (#[trigger] groups[i]).cat,
            (#[trigger] rows[r]).cat,
            normalize,
        ) by {
        let i = choose|i: int|
            0 <= i < groups.len() && key_of((#[trigger] groups[i]).cat, normalize) == key_of(
                rows[r].cat,
                normalize,
            );
        assert(together(groups[i].cat, rows[r].cat, normalize));
    }
    assert forall|i: int, j: int| 0 <= i < j < groups.len() implies !together(
        (#[trigger] groups[i]).cat,
        (#[trigger] groups[j]).cat,
        normalize,
    ) by {
        assert(key_of(groups[i].cat, normalize) != key_of(groups[j].cat, normalize));
    }
}

proof fn lemma_bucket_prefix(rows: Seq<RowView>, normalize: bool, key: Seq<char>, n: int)
    requires
        0 <= n <= rows.len(),
    ensures
        bucket(rows.take(n), normalize, key).len() <= bucket(rows, normalize, key).len(),
        bucket(rows, normalize, key).take(bucket(rows.take(n), normalize, key).len() as int)
            == bucket(rows.take(n), normalize, key),
    decreases rows.len() - n,
{
    if n == rows.len() {
        assert(rows.take(n) =~= rows);
        let b = bucket(rows, normalize, key);
        assert(b.take(b.len() as int) =~= b);
    } else {
        lemma_bucket_prefix(rows, normalize, key, n + 1);
        assert(rows.take(n + 1).drop_last() =~= rows.take(n));
        let b = bucket(rows, normalize, key);
        let more = bucket(rows.take(n + 1), normalize, key);
        let few = bucket(rows.take(n), normalize, key);
        assert(more.take(few.len() as int) =~= few);
        assert(b.take(few.len() as int) =~= more.take(few.len() as int)) by {
            assert(b.take(more.len() as int) == more);
            assert forall|k: int| 0 <= k < few.len() implies b[k] == more[k] by {
                assert(b.take(more.len() as int)[k] == b[k]);
            }
        }
    }
}

proof fn lemma_names_prefix(log: Seq<(Seq<char>, int)>, n: int)
    requires
        0 <= n <= log.len(),
    ensures
        names_of(log.take(n)).len() <= names_of(log).len(),
        names_of(log).take(names_of(log.take(n)).len() as int) == names_of(log.take(n)),
    decreases log.len() - n,
{
    if n == log.len() {
        assert(log.take(n) =~= log);
        let b = names_of(log);
        assert(b.take(b.len() as int) =~= b);
    } else {
        lemma_names_prefix(log, n + 1);
        assert(log.take(n + 1).drop_last() =~= log.take(n));
        let b = names_of(log);
        let more = names_of(log.take(n + 1));
        let few = names_of(log.take(n));
        assert(more.take(few.len() as int) =~= few);
        assert(b.take(few.len() as int) =~= more.take(few.len() as int)) by {
            assert(b.take(more.len() as int) == more);
            assert forall|k: int| 0 <= k < few.len() implies b[k] == more[k] by {
                assert(b.take(more.len() as int)[k] == b[k]);
            }
        }
    }
}

proof fn lemma_bucket_holds(rows: Seq<RowView>, normalize: bool, key: Seq<char>, r: int)
    requires
        0 <= r < rows.len(),
        key_of(rows[r].cat, normalize) == key,
    ensures
        bucket(rows, normalize, key).contains(rows[r]),
{
    let n = r + 1;
    let b = bucket(rows, normalize, key);
    lemma_bucket_prefix(rows, normalize, key, n);
    assert(rows.take(n).last() == rows[r]);
    let e = bucket(rows.take(n), normalize, key);
    assert(e.last() == rows[r]);
    assert(b.take(e.len() as int)[e.len() - 1] == b[e.len() - 1]);
}

/// The first row with a label.
proof fn lemma_first_row(rows: Seq<RowView>, cat: Seq<char>, r: int) -> (q: int)
    requires
        0 <= r < rows.len(),
        rows[r].cat == cat,
    ensures
        0 <= q < rows.len(),
        rows[q].cat == cat,
        forall|p: int| 0 <= p < q ==> (#[trigger] rows[p]).cat != cat,
    decreases r,
{
    if exists|p: int| 0 <= p < r && (#[trigger] rows[p]).cat == cat {
        let p = choose|p: int| 0 <= p < r && (#[trigger] rows[p]).cat == cat;
        lemma_first_row(rows, cat, p)
    } else {
        r
    }
}

/// A category is named after the spelling under which most of its articles stand; of
/// spellings that are as common, after the one that came first, and where there are no
/// articles under any, after its first row.
pub proof fn law_named_after_most_articles(
    rows: Seq<RowView>,
    normalize: bool,
    groups: Seq<GroupView>,
    i: int,
) -> (q: int)
    requires
        grouping(rows, normalize, groups),
        0 <= i < groups.len(),
    ensures
        0 <= q < rows.len(),
        rows[q].cat == groups[i].cat,
        forall|p: int|
            0 <= p < rows.len() && together((#[trigger] rows[p]).cat, groups[i].cat, normalize)
                && articles(rows, |r: RowView| r.cat == rows[p].cat) > 0 ==> articles(
                rows,
                |r: RowView| r.cat == rows[p].cat,
            ) <= articles(rows, |r: RowView| r.cat == groups[i].cat),
        forall|p: int|
            0 <= p < q && together((#[trigger] rows[p]).cat, groups[i].cat, normalize) ==> articles(
                rows,
                |r: RowView| r.cat == groups[i].cat,
            ) > 0 && articles(rows, |r: RowView| r.cat == rows[p].cat) < articles(
                rows,
                |r: RowView| r.cat == groups[i].cat,
            ),
{
    let label = groups[i].cat;
    let key = key_of(label, normalize);
    let b = bucket(rows, normalize, key);
    let log = spelling_log(b);
    let t = tally(log);
    let names = names_of(log);
    assert(describes(groups[i], b));
    let r = lemma_name_is_row(rows, normalize, groups, i);
    let q = lemma_first_row(rows, label, r);
    lemma_names_of(log);
    let k = choose|k: int| #[trigger] leading(t, k) && label == t[k].0;
    assert(names[k] == label);

    // The amounts under a spelling are the articles of its rows.
    assert forall|p: int|
        0 <= p < rows.len() && key_of((#[trigger] rows[p]).cat, normalize) == key implies total_for(
        log,
        rows[p].cat,
    ) == articles(rows, |r: RowView| r.cat == rows[p].cat) by {
        lemma_bucket_articles(rows, normalize, key, rows[p].cat);
        lemma_articles_same(
            rows,
            |r: RowView| key_of(r.cat, normalize) == key && r.cat == rows[p].cat,
            |r: RowView| r.cat == rows[p].cat,
        );
    }
    assert(total_for(log, rows[q].cat) == articles(rows, |r: RowView| r.cat == rows[q].cat));
    assert(t[k].1 == total_for(log, label));

    // Each spelling of the category has a line.
    assert forall|p: int|
        0 <= p < rows.len() && key_of((#[trigger] rows[p]).cat, normalize) == key implies names.contains(
        rows[p].cat,
    ) by {
        lemma_bucket_holds(rows, normalize, key, p);
        let s = choose|s: int| 0 <= s < b.len() && b[s] == rows[p];
        assert(log[s].0 == rows[p].cat);
    }
    assert forall|p: int|
        0 <= p < rows.len() && together((#[trigger] rows[p]).cat, label, normalize) && articles(
            rows,
            |r: RowView| r.cat == rows[p].cat,
        ) > 0 implies articles(rows, |r: RowView| r.cat == rows[p].cat) <= articles(
        rows,
        |r: RowView| r.cat == label,
    ) by {
        assert(key_of(rows[p].cat, normalize) == key);
        assert(names.contains(rows[p].cat));
        let j = choose|j: int| 0 <= j < names.len() && names[j] == rows[p].cat;
        assert(t[j].1 == total_for(log, rows[p].cat));
    }

    // Spellings that came before the first row of the name have lines before its line.
    let early = rows.take(q);
    let e = bucket(early, normalize, key);
    let elog = spelling_log(e);
    lemma_bucket_prefix(rows, normalize, key, q);
    assert(log.take(elog.len() as int) =~= elog) by {
        assert forall|x: int| 0 <= x < e.len() implies log[x] == elog[x] by {
            assert(b.take(e.len() as int)[x] == b[x]);
        }
    }
    lemma_names_prefix(log, elog.len() as int);
    lemma_names_of(elog);
    let enames = names_of(elog);
    assert forall|p: int|
        0 <= p < q && together((#[trigger] rows[p]).cat, label, normalize) implies articles(
        rows,
        |r: RowView| r.cat == label,
    ) > 0 && articles(rows, |r: RowView| r.cat == rows[p].cat) < articles(
        rows,
        |r: RowView| r.cat == label,
    ) by {
        assert(key_of(rows[p].cat, normalize) == key);
        assert(early[p] == rows[p]);
        lemma_bucket_holds(early, normalize, key, p);
        let s = choose|s: int| 0 <= s < e.len() && e[s] == rows[p];
        assert(elog[s].0 == rows[p].cat);
        assert(enames.contains(rows[p].cat));
        let j = choose|j: int| 0 <= j < enames.len() && enames[j] == rows[p].cat;
        assert(names.take(enames.len() as int)[j] == names[j]);
        if k < enames.len() {
            assert(names.take(enames.len() as int)[k] == names[k]);
            assert(enames.contains(label));
            let x = choose|x: int| 0 <= x < elog.len() && (#[trigger] elog[x]).0 == label;
            lemma_bucket_rows(early, normalize, key);
            assert(early.contains(e[x]));
            let y = choose|y: int| 0 <= y < early.len() && early[y] == e[x];
            assert(rows[y].cat == label);
        }
        assert(j < k);
        assert(t[j].1 == total_for(log, rows[p].cat));
        assert(t[j].1 < t[k].1);
        assert(k != 0);
        assert(exists|z: int| 0 <= z < t.len() && (#[trigger] t[z]).1 > 0);
        let z = choose|z: int| 0 <= z < t.len() && (#[trigger] t[z]).1 > 0;
        assert(t[z].1 <= t[k].1);
    }
    q
}

/// All articles of some rows, and of some categories, added up.
pub proof fn law_sums_add_up(rows: Seq<RowView>, groups: Seq<GroupView>)
    ensures
        count_sum(rows) == rows.fold_left(0, |n: int, r: RowView| n + r.count),
        group_total(groups) == groups.fold_left(0, |n: int, g: GroupView| n + g.count),
    decreases rows.len(),
{
    if rows.len() > 0 {
        law_sums_add_up(rows.drop_last(), groups);
    }
    lemma_group_total_fold(groups);
}

proof fn lemma_group_total_fold(groups: Seq<GroupView>)
    ensures
        group_total(groups) == groups.fold_left(0, |n: int, g: GroupView| n + g.count),
    decreases groups.len(),
{
    if groups.len() > 0 {
        lemma_group_total_fold(groups.drop_last());
    }
}

/// The counts of all categories add up to those of all rows.
pub proof fn law_nothing_lost(rows: Seq<RowView>, normalize: bool, groups: Seq<GroupView>)
    requires
        grouping(rows, normalize, groups),
    ensures
        groups.fold_left(0, |n: int, g: GroupView| n + g.count) == rows.fold_left(
            0,
            |n: int, r: RowView| n + r.count,
        ),
{
    law_total_covers_all_rows(rows, normalize, groups);
    law_sums_add_up(rows, groups);
}

/// The rows can be grouped exactly where, row by row, the sum of the row's category up
/// to it is a 64-bit number, and so is that of its publication within the category.
pub proof fn law_rows_fit_exactly(rows: Seq<RowView>, normalize: bool)
    ensures
        running_sums_fit(rows, normalize) <==> forall|n: int|
            0 <= n < rows.len() ==> {
                &&& i64::MIN <= articles(
                    rows.take(n + 1),
                    |r: RowView| together(r.cat, (#[trigger] rows[n]).cat, normalize),
                ) <= i64::MAX
                &&& rows[n].pubname matches Some(p) ==> i64::MIN <= articles(
                    rows.take(n + 1),
                    |r: RowView| together(r.cat, rows[n].cat, normalize) && r.pubname == Some(p),
                ) <= i64::MAX
            },
{
    assert forall|n: int| 0 <= n < rows.len() implies step_fits(rows, normalize, n + 1) == {
        &&& i64::MIN <= articles(
            rows.take(n + 1),
            |r: RowView| together(r.cat, (#[trigger] rows[n]).cat, normalize),
        ) <= i64::MAX
        &&& rows[n].pubname matches Some(p) ==> i64::MIN <= articles(
            rows.take(n + 1),
            |r: RowView| together(r.cat, rows[n].cat, normalize) && r.pubname == Some(p),
        ) <= i64::MAX
    } by {
        let t = rows.take(n + 1);
        let key = key_of(rows[n].cat, normalize);
        lemma_bucket_articles(t, normalize, key, Seq::empty());
        lemma_articles_same(
            t,
            |r: RowView| key_of(r.cat, normalize) == key,
            |r: RowView| together(r.cat, rows[n].cat, normalize),
        );
        if let Some(p) = rows[n].pubname {
            lemma_bucket_articles(t, normalize, key, p);
            lemma_articles_same(
                t,
                |r: RowView| key_of(r.cat, normalize) == key && r.pubname == Some(p),
                |r: RowView| together(r.cat, rows[n].cat, normalize) && r.pubname == Some(p),
            );
        }
    }
    if running_sums_fit(rows, normalize) {
        assert forall|n: int| 0 <= n < rows.len() implies {
            &&& i64::MIN <= articles(
                rows.take(n + 1),
                |r: RowView| together(r.cat, (#[trigger] rows[n]).cat, normalize),
            ) <= i64::MAX
            &&& rows[n].pubname matches Some(p) ==> i64::MIN <= articles(
                rows.take(n + 1),
                |r: RowView| together(r.cat, rows[n].cat, normalize) && r.pubname == Some(p),
            ) <= i64::MAX
        } by {
            assert(step_fits(rows, normalize, n + 1));
        }
    } else {
        let n = choose|n: int| 0 < n <= rows.len() && !#[trigger] step_fits(rows, normalize, n);
        assert(step_fits(rows, normalize, (n - 1) + 1) == step_fits(rows, normalize, n));
        assert(rows[n - 1] == rows[n - 1]);
    }
}

/// The categories can be added up exactly where every sum on the way is a 64-bit number.
pub proof fn law_totals_fit_exactly(groups: Seq<GroupView>)
    ensures
        totals_fit(groups) <==> forall|n: int|
            0 <= n <= groups.len() ==> i64::MIN <= (#[trigger] groups.take(n)).fold_left(
                0,
                |m: int, g: GroupView| m + g.count,
            ) <= i64::MAX,
{
    assert forall|n: int| 0 <= n <= groups.len() implies fits(group_total(groups.take(n))) == (
    i64::MIN <= (#[trigger] groups.take(n)).fold_left(0, |m: int, g: GroupView| m + g.count)
        <= i64::MAX) by {
        lemma_group_total_fold(groups.take(n));
    }
    if totals_fit(groups) {
        assert forall|n: int| 0 <= n <= groups.len() implies i64::MIN <= (#[trigger] groups.take(
            n,
        )).fold_left(0, |m: int, g: GroupView| m + g.count) <= i64::MAX by {
            assert(fits(group_total(groups.take(n))));
        }
    } else {
        let n = choose|n: int|
            0 <= n <= groups.len() && !fits(#[trigger] group_total(groups.take(n)));
        assert(!(i64::MIN <= groups.take(n).fold_left(0, |m: int, g: GroupView| m + g.count)
            <= i64::MAX));
    }
}

/// Rows are summed up exactly where they can be grouped and their categories added up.
pub proof fn law_summary_owed(rows: Seq<RowView>, normalize: bool, groups: Seq<GroupView>)
    requires
        grouping(rows, normalize, groups),
    ensures
        sums_fit(rows, normalize) <==> running_sums_fit(rows, normalize) && totals_fit(groups),
{
    assert forall|other: Seq<GroupView>| #[trigger] grouping(rows, normalize, other) implies other
        == groups by {
        law_grouping_unique(rows, normalize, other, groups);
    }
}

/// What is shown are the categories with at least `min` articles, all of them without a
/// limit, and with one as many from the front as it allows.
pub proof fn law_shown_are_first_large_ones(groups: Seq<GroupView>, min: int, top: Option<usize>)
    ensures
        ({
            let large = groups.filter(|g: GroupView| g.count >= min);
            let shown = selected(groups, min, limit(top));
            &&& top is None ==> shown == large
            &&& top matches Some(n) ==> shown.len() == if n <= large.len() {
                n as nat
            } else {
                large.len()
            } && shown == large.take(shown.len() as int)
        }),
{
    lemma_at_least_filter(groups, min);
    let large = groups.filter(|g: GroupView| g.count >= min);
    assert(large.take(large.len() as int) =~= large);
}

proof fn lemma_at_least_filter(groups: Seq<GroupView>, min: int)
    ensures
        at_least(groups, min) == groups.filter(|g: GroupView| g.count >= min),
    decreases groups.len(),
{
    reveal(Seq::filter);
    if groups.len() > 0 {
        lemma_at_least_filter(groups.drop_last(), min);
    } else {
        assert(groups =~= Seq::<GroupView>::empty());
    }
}

} // verus!
