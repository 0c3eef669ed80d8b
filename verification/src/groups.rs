//! Categories out of rows: each row counts the articles under one label, and of one
//! publication where the rows are split; a category gathers the rows of its label,
//! or of all spellings of it.

use vstd::prelude::*;
use crate::buckets::{buckets_of, gather, lemma_bucket_rows, settle, Bucket};
use crate::label::normal_key;
use crate::rank::{lemma_same_items, ranked, strictly_ordered, Ranked};
use crate::tally::{lemma_names_of, names_of, tally, total_for};
use crate::text::{
    lemma_text_lt_irreflexive, lemma_text_lt_total, lemma_text_lt_transitive, text_before, text_lt,
};

verus! {

/// What a row counts: a category and, where the rows are split by publication, the
/// publication.
#[derive(Debug, PartialEq, Eq)]
pub struct GroupKey {
    pub cat: String,
    pub pubname: Option<String>,
}

/// One counted row.
#[derive(Debug, PartialEq, Eq)]
pub struct GroupRow {
    pub key: GroupKey,
    pub count: i64,
}

/// A category and, where the rows are split, its publications.
#[derive(Debug, PartialEq, Eq)]
pub struct CatGroup {
    pub cat: String,
    pub count: i64,
    pub pubs: Vec<PubCount>,
}

/// The articles of one publication within a category.
#[derive(Debug, PartialEq, Eq)]
pub struct PubCount {
    pub pubname: String,
    pub count: i64,
}

/// The model of a row.
pub struct RowView {
    pub cat: Seq<char>,
    pub pubname: Option<Seq<char>>,
    pub count: int,
}

/// The model of a category.
pub struct GroupView {
    pub cat: Seq<char>,
    pub count: int,
    pub pubs: Seq<PubView>,
}

/// The model of a publication's share in a category.
pub struct PubView {
    pub pubname: Seq<char>,
    pub count: int,
}

impl View for GroupRow {
    type V = RowView;

    open spec fn view(&self) -> RowView {
        RowView {
            cat: self.key.cat@,
            pubname: match self.key.pubname {
                Some(p) => Some(p@),
                None => None,
            },
            count: self.count as int,
        }
    }
}

impl View for PubCount {
    type V = PubView;

    open spec fn view(&self) -> PubView {
        PubView { pubname: self.pubname@, count: self.count as int }
    }
}

impl View for CatGroup {
    type V = GroupView;

    open spec fn view(&self) -> GroupView {
        GroupView { cat: self.cat@, count: self.count as int, pubs: pub_views(self.pubs@) }
    }
}

/// The models of rows.
pub open spec fn row_views(rows: Seq<GroupRow>) -> Seq<RowView> {
    rows.map_values(|r: GroupRow| r@)
}

/// The models of categories.
pub open spec fn group_views(groups: Seq<CatGroup>) -> Seq<GroupView> {
    groups.map_values(|g: CatGroup| g@)
}

/// The models of publications.
pub open spec fn pub_views(pubs: Seq<PubCount>) -> Seq<PubView> {
    pubs.map_values(|p: PubCount| p@)
}

/// The larger category comes ahead; of two of one size, the one whose label comes first.
pub open spec fn group_ahead(a: GroupView, b: GroupView) -> bool {
    a.count > b.count || (a.count == b.count && text_lt(a.cat, b.cat))
}

/// The larger publication comes ahead; of two of one size, the one whose name comes first.
pub open spec fn pub_ahead(a: PubView, b: PubView) -> bool {
    a.count > b.count || (a.count == b.count && text_lt(a.pubname, b.pubname))
}

/// The key of the category that a label belongs to: the merge key where labels are
/// normalized, and otherwise the label itself.
pub open spec fn key_of(cat: Seq<char>, normalize: bool) -> Seq<char> {
    if normalize {
        normal_key(cat)
    } else {
        cat
    }
}

/// The rows of one category, in their order.
pub open spec fn bucket(rows: Seq<RowView>, normalize: bool, key: Seq<char>) -> Seq<RowView>
    decreases rows.len(),
{
    if rows.len() == 0 {
        Seq::empty()
    } else {
        let earlier = bucket(rows.drop_last(), normalize, key);
        if key_of(rows.last().cat, normalize) == key {
            earlier.push(rows.last())
        } else {
            earlier
        }
    }
}

/// The articles in all rows together.
pub open spec fn count_sum(rows: Seq<RowView>) -> int
    decreases rows.len(),
{
    if rows.len() == 0 {
        0
    } else {
        count_sum(rows.drop_last()) + rows.last().count
    }
}

/// The articles of each row, under the spelling of its label.
pub open spec fn spelling_log(rows: Seq<RowView>) -> Seq<(Seq<char>, int)> {
    rows.map_values(|r: RowView| (r.cat, r.count))
}

/// The articles of each row that names a publication, under that name.
pub open spec fn pub_log(rows: Seq<RowView>) -> Seq<(Seq<char>, int)>
    decreases rows.len(),
{
    if rows.len() == 0 {
        Seq::empty()
    } else {
        let earlier = pub_log(rows.drop_last());
        match rows.last().pubname {
            Some(p) => earlier.push((p, rows.last().count)),
            None => earlier,
        }
    }
}

/// The line of a tally with the largest sum, the first of them where several have it;
/// the first line of all where no sum is positive.
pub open spec fn leading(lines: Seq<(Seq<char>, int)>, k: int) -> bool {
    &&& 0 <= k < lines.len()
    &&& if exists|j: int| 0 <= j < lines.len() && (#[trigger] lines[j]).1 > 0 {
        &&& forall|j: int| 0 <= j < lines.len() ==> (#[trigger] lines[j]).1 <= lines[k].1
        &&& forall|j: int| 0 <= j < k ==> (#[trigger] lines[j]).1 < lines[k].1
    } else {
        k == 0
    }
}

/// The name of a category: the most common spelling among its rows, the one that came
/// first where several are as common.
pub open spec fn is_label(rows: Seq<RowView>, label: Seq<char>) -> bool {
    exists|k: int| #[trigger]
        leading(tally(spelling_log(rows)), k) && label == tally(spelling_log(rows))[k].0
}

/// What the rows of a category come to: its most common spelling, all its articles,
/// and its publications by size with the articles of each, without those that
/// contribute nothing.
pub open spec fn describes(g: GroupView, rows: Seq<RowView>) -> bool {
    &&& is_label(rows, g.cat)
    &&& g.count == count_sum(rows)
    &&& strictly_ordered(g.pubs, |a: PubView, b: PubView| pub_ahead(a, b))
    &&& forall|p: PubView| #[trigger]
        g.pubs.contains(p) <==> p.count != 0 && tally(pub_log(rows)).contains(
            (p.pubname, p.count),
        )
}

/// The categories of some rows: by size, one for each key that occurs, each of which
/// describes the rows with its key.
pub open spec fn grouping(rows: Seq<RowView>, normalize: bool, groups: Seq<GroupView>) -> bool {
    &&& strictly_ordered(groups, |a: GroupView, b: GroupView| group_ahead(a, b))
    &&& forall|i: int, j: int|
        0 <= i < j < groups.len() ==> key_of((#[trigger] groups[i]).cat, normalize) != key_of(
            (#[trigger] groups[j]).cat,
            normalize,
        )
    &&& forall|i: int|
        0 <= i < groups.len() ==> bucket(
            rows,
            normalize,
            key_of((#[trigger] groups[i]).cat, normalize),
        ).len() > 0 && describes(
            groups[i],
            bucket(rows, normalize, key_of(groups[i].cat, normalize)),
        )
    &&& forall|r: int|
        0 <= r < rows.len() ==> exists|i: int|
            0 <= i < groups.len() && key_of((#[trigger] groups[i]).cat, normalize) == key_of(
                (#[trigger] rows[r]).cat,
                normalize,
            )
}

/// The articles in all categories together.
pub open spec fn group_total(groups: Seq<GroupView>) -> int
    decreases groups.len(),
{
    if groups.len() == 0 {
        0
    } else {
        group_total(groups.drop_last()) + groups.last().count
    }
}

/// The articles of all publications together.
pub open spec fn pub_total(pubs: Seq<PubView>) -> int
    decreases pubs.len(),
{
    if pubs.len() == 0 {
        0
    } else {
        pub_total(pubs.drop_last()) + pubs.last().count
    }
}

/// A sum that a 64-bit number holds.
pub open spec fn fits(n: int) -> bool {
    i64::MIN <= n <= i64::MAX
}

/// After the first `n` rows, the sums that the last of them changed can be held.
pub open spec fn step_fits(rows: Seq<RowView>, normalize: bool, n: int) -> bool {
    let row = rows[n - 1];
    let b = bucket(rows.take(n), normalize, key_of(row.cat, normalize));
    &&& fits(count_sum(b))
    &&& match row.pubname {
        Some(p) => fits(total_for(pub_log(b), p)),
        None => true,
    }
}

/// Adding the rows up one by one, every sum on the way can be held.
pub open spec fn running_sums_fit(rows: Seq<RowView>, normalize: bool) -> bool {
    forall|n: int| 0 < n <= rows.len() ==> #[trigger] step_fits(rows, normalize, n)
}

impl Ranked for PubCount {
    open spec fn ahead(self, other: PubCount) -> bool {
        pub_ahead(self@, other@)
    }

    proof fn ahead_asymmetric(a: PubCount, b: PubCount) {
        lemma_ahead_asymmetric(a.count as int, a.pubname@, b.count as int, b.pubname@);
    }

    proof fn behind_transitive(a: PubCount, b: PubCount, c: PubCount) {
        lemma_behind_transitive(
            a.count as int,
            a.pubname@,
            b.count as int,
            b.pubname@,
            c.count as int,
            c.pubname@,
        );
    }

    fn is_ahead(&self, other: &PubCount) -> (b: bool) {
        self.count > other.count || (self.count == other.count && text_before(
            self.pubname.as_str(),
            other.pubname.as_str(),
        ))
    }
}

impl Ranked for CatGroup {
    open spec fn ahead(self, other: CatGroup) -> bool {
        group_ahead(self@, other@)
    }

    proof fn ahead_asymmetric(a: CatGroup, b: CatGroup) {
        lemma_ahead_asymmetric(a.count as int, a.cat@, b.count as int, b.cat@);
    }

    proof fn behind_transitive(a: CatGroup, b: CatGroup, c: CatGroup) {
        lemma_behind_transitive(
            a.count as int,
            a.cat@,
            b.count as int,
            b.cat@,
            c.count as int,
            c.cat@,
        );
    }

    fn is_ahead(&self, other: &CatGroup) -> (b: bool) {
        self.count > other.count || (self.count == other.count && text_before(
            self.cat.as_str(),
            other.cat.as_str(),
        ))
    }
}

/// By size downwards, then by name.
spec fn size_then_name(m: int, a: Seq<char>, n: int, b: Seq<char>) -> bool {
    m > n || (m == n && text_lt(a, b))
}

proof fn lemma_ahead_asymmetric(m: int, a: Seq<char>, n: int, b: Seq<char>)
    requires
        size_then_name(m, a, n, b),
    ensures
        !size_then_name(n, b, m, a),
{
    if text_lt(a, b) && text_lt(b, a) {
        lemma_text_lt_transitive(a, b, a);
        lemma_text_lt_irreflexive(a);
    }
}

proof fn lemma_behind_transitive(
    m: int,
    a: Seq<char>,
    n: int,
    b: Seq<char>,
    o: int,
    c: Seq<char>,
)
    requires
        !size_then_name(n, b, m, a),
        !size_then_name(o, c, n, b),
    ensures
        !size_then_name(o, c, m, a),
{
    if m == n && n == o && text_lt(c, a) {
        lemma_text_lt_total(a, b);
        lemma_text_lt_total(b, c);
        if text_lt(a, b) {
            lemma_text_lt_transitive(c, a, b);
        }
    }
}

/// The name of a category is the spelling of one of its rows.
pub proof fn lemma_label_is_spelling(rows: Seq<RowView>, label: Seq<char>)
    requires
        is_label(rows, label),
    ensures
        exists|i: int| 0 <= i < rows.len() && (#[trigger] rows[i]).cat == label,
{
    let log = spelling_log(rows);
    lemma_names_of(log);
    let k = choose|k: int| #[trigger] leading(tally(log), k) && label == tally(log)[k].0;
    assert(names_of(log)[k] == label);
    assert(names_of(log).contains(label));
    let i = choose|i: int| 0 <= i < log.len() && (#[trigger] log[i]).0 == label;
    assert(rows[i].cat == label);
}

/// The name of a category has the key of its rows.
proof fn lemma_label_key(
    rows: Seq<RowView>,
    normalize: bool,
    key: Seq<char>,
    label: Seq<char>,
)
    requires
        is_label(bucket(rows, normalize, key), label),
    ensures
        key_of(label, normalize) == key,
{
    let b = bucket(rows, normalize, key);
    lemma_label_is_spelling(b, label);
    lemma_bucket_rows(rows, normalize, key);
    let i = choose|i: int| 0 <= i < b.len() && (#[trigger] b[i]).cat == label;
    assert(key_of(b[i].cat, normalize) == key);
}

/// The categories that the buckets of some rows come to.
#[verifier::loop_isolation(false)]
#[verifier::spinoff_prover]
fn assemble(
    buckets: &Vec<Bucket>,
    Ghost(all): Ghost<Seq<RowView>>,
    normalize: bool,
) -> (groups: Vec<CatGroup>)
    requires
        buckets_of(buckets@, all, normalize),
    ensures
        grouping(all, normalize, group_views(groups@)),
{
    let mut list: Vec<CatGroup> = Vec::new();
    let mut i: usize = 0;
    while i < buckets.len()
        invariant
            i <= buckets@.len(),
            list@.len() == i,
            forall|k: int|
                0 <= k < i ==> describes((#[trigger] list@[k])@, buckets@[k].rows@) && key_of(
                    list@[k].cat@,
                    normalize,
                ) == buckets@[k].key@,
        decreases buckets@.len() - i,
    {
        let g = settle(&buckets[i]);
        proof {
            lemma_label_key(all, normalize, buckets@[i as int].key@, g@.cat);
        }
        list.push(g);
        i += 1;
    }
    let ghost unsorted = list@;
    let groups = ranked(list);
    proof {
        assert forall|a: int, b: int| 0 <= a < b < unsorted.len() implies key_of(
            (#[trigger] unsorted[a]).cat@,
            normalize,
        ) != key_of((#[trigger] unsorted[b]).cat@, normalize) by {
            assert(text_lt(buckets@[a].key@, buckets@[b].key@));
            lemma_text_lt_irreflexive(buckets@[a].key@);
        }
        assert(unsorted.no_duplicates()) by {
            assert forall|a: int, b: int|
                0 <= a < unsorted.len() && 0 <= b < unsorted.len() && a != b implies unsorted[a]
                != unsorted[b] by {
                if a < b {
                    assert(key_of(unsorted[a].cat@, normalize) != key_of(
                        unsorted[b].cat@,
                        normalize,
                    ));
                } else {
                    assert(key_of(unsorted[b].cat@, normalize) != key_of(
                        unsorted[a].cat@,
                        normalize,
                    ));
                }
            }
        }
        lemma_same_items(unsorted, groups@);
        let views = group_views(groups@);
        let lt = |a: GroupView, b: GroupView| group_ahead(a, b);
        assert forall|i: int, j: int| 0 <= i < j < views.len() implies key_of(
            (#[trigger] views[i]).cat,
            normalize,
        ) != key_of((#[trigger] views[j]).cat, normalize) by {
            assert(groups@.contains(groups@[i]));
            assert(groups@.contains(groups@[j]));
            assert(unsorted.contains(groups@[i]));
            assert(unsorted.contains(groups@[j]));
            let a = choose|a: int| 0 <= a < unsorted.len() && unsorted[a] == groups@[i];
            let b = choose|b: int| 0 <= b < unsorted.len() && unsorted[b] == groups@[j];
            assert(a != b);
            if a < b {
                assert(key_of(unsorted[a].cat@, normalize) != key_of(unsorted[b].cat@, normalize));
            } else {
                assert(key_of(unsorted[b].cat@, normalize) != key_of(unsorted[a].cat@, normalize));
            }
        }
        assert forall|i: int, j: int| 0 <= i < j < views.len() implies #[trigger] lt(
            views[i],
            views[j],
        ) by {
            assert(!groups@[j].ahead(groups@[i]));
            assert(key_of(views[i].cat, normalize) != key_of(views[j].cat, normalize));
            lemma_text_lt_total(views[i].cat, views[j].cat);
        }
        assert forall|i: int| 0 <= i < views.len() implies bucket(
            all,
            normalize,
            key_of((#[trigger] views[i]).cat, normalize),
        ).len() > 0 && describes(
            views[i],
            bucket(all, normalize, key_of(views[i].cat, normalize)),
        ) by {
            assert(groups@.contains(groups@[i]));
            assert(unsorted.contains(groups@[i]));
            let a = choose|a: int| 0 <= a < unsorted.len() && unsorted[a] == groups@[i];
            assert(describes(unsorted[a]@, buckets@[a].rows@));
        }
        assert forall|r: int| 0 <= r < all.len() implies exists|i: int|
            0 <= i < views.len() && key_of((#[trigger] views[i]).cat, normalize) == key_of(
                (#[trigger] all[r]).cat,
                normalize,
            ) by {
            let k = choose|k: int|
                0 <= k < buckets@.len() && (#[trigger] buckets@[k]).key@ == key_of(
                    all[r].cat,
                    normalize,
                );
            assert(key_of(unsorted[k].cat@, normalize) == buckets@[k].key@);
            assert(unsorted.contains(unsorted[k]));
            assert(groups@.contains(unsorted[k]));
            let i = choose|i: int| 0 <= i < groups@.len() && groups@[i] == unsorted[k];
            assert(views[i].cat == unsorted[k].cat@);
        }
        assert(strictly_ordered(views, lt));
    }
    groups
}

/// Groups rows into categories, optionally merging label variants. A merged
/// category is displayed under its most common original spelling, which keeps
/// acronyms intact ("US Politics", not "Us Politics").
pub fn build_groups(rows: Vec<GroupRow>, normalize: bool) -> (groups: Vec<CatGroup>)
    requires
        running_sums_fit(row_views(rows@), normalize),
    ensures
        grouping(row_views(rows@), normalize, group_views(groups@)),
{
    let buckets = gather(&rows, normalize).unwrap();
    assemble(&buckets, Ghost(row_views(rows@)), normalize)
}

/// Groups rows into categories where every sum on the way can be held; `None` where
/// one cannot.
pub fn checked_build_groups(rows: Vec<GroupRow>, normalize: bool) -> (out: Option<Vec<CatGroup>>)
    ensures
        out is Some <==> running_sums_fit(row_views(rows@), normalize),
        out matches Some(groups) ==> grouping(row_views(rows@), normalize, group_views(groups@)),
{
    match gather(&rows, normalize) {
        Some(buckets) => Some(assemble(&buckets, Ghost(row_views(rows@)), normalize)),
        None => None,
    }
}

} // verus!
