//! Gathering rows into buckets, one for each key, and turning a bucket into a category.

use vstd::prelude::*;
use crate::groups::{
    bucket, count_sum, describes, fits, is_label, key_of, leading, pub_ahead, pub_log, pub_views,
    row_views, running_sums_fit, spelling_log, step_fits, CatGroup, GroupRow, PubCount, PubView,
    RowView,
};
use crate::label::normalize_key;
use crate::rank::{lemma_same_items, ranked, strictly_ordered, Ranked};
use crate::tally::{lemma_names_of, names_of, tally, total_for, Line, Tally};
use crate::text::{
    lemma_text_lt_irreflexive, lemma_text_lt_total, lemma_text_lt_transitive, text_before, text_lt,
};

verus! {

/// The rows of one key, added up.
pub(crate) struct Bucket {
    pub key: String,
    pub total: i64,
    pub spellings: Tally,
    pub pubs: Tally,
    pub rows: Ghost<Seq<RowView>>,
}

impl Bucket {
    /// The sums are those of the rows.
    pub(crate) open spec fn wf(self) -> bool {
        &&& self.total == count_sum(self.rows@)
        &&& self.spellings.wf()
        &&& self.spellings.log@ == spelling_log(self.rows@)
        &&& self.pubs.wf()
        &&& self.pubs.log@ == pub_log(self.rows@)
        &&& forall|k: int|
            0 <= k < tally(self.pubs.log@).len() ==> fits((#[trigger] tally(self.pubs.log@)[k]).1)
    }

    fn new(key: String) -> (b: Bucket)
        ensures
            b.wf(),
            b.key@ == key@,
            b.rows@ == Seq::<RowView>::empty(),
    {
        let b = Bucket {
            key,
            total: 0,
            spellings: Tally::new(),
            pubs: Tally::new(),
            rows: Ghost(Seq::empty()),
        };
        assert(spelling_log(b.rows@) =~= Seq::<(Seq<char>, int)>::empty());
        assert(pub_log(b.rows@) =~= Seq::<(Seq<char>, int)>::empty());
        b
    }

    /// Adds a row, and says whether its sums can be held.
    fn add(&mut self, row: &GroupRow) -> (ok: bool)
        requires
            old(self).wf(),
            old(self).rows@.len() < usize::MAX,
        ensures
            ok == (fits(count_sum(old(self).rows@.push(row@))) && match row@.pubname {
                Some(p) => fits(total_for(pub_log(old(self).rows@.push(row@)), p)),
                None => true,
            }),
            ok ==> final(self).wf(),
            ok ==> final(self).rows@ == old(self).rows@.push(row@),
            final(self).key == old(self).key,
    {
        let ghost rows = self.rows@;
        let ghost more = rows.push(row@);
        proof {
            assert(more.drop_last() =~= rows);
            assert(spelling_log(more) =~= spelling_log(rows).push((row@.cat, row@.count)));
            lemma_pub_log_len(rows);
        }
        match self.total.checked_add(row.count) {
            Some(total) => {
                self.total = total;
            },
            None => {
                return false;
            },
        }
        self.spellings.add(&row.key.cat, row.count);
        self.rows = Ghost(more);
        match &row.key.pubname {
            Some(p) => {
                let ghost log = self.pubs.log@;
                let sum: i128 = self.pubs.add(p, row.count);
                if sum < i64::MIN as i128 || sum > i64::MAX as i128 {
                    return false;
                }
                proof {
                    lemma_sums_fit_after(log, p@, row.count as int);
                }
            },
            None => {},
        }
        true
    }
}

proof fn lemma_pub_log_len(rows: Seq<RowView>)
    ensures
        pub_log(rows).len() <= rows.len(),
    decreases rows.len(),
{
    if rows.len() > 0 {
        lemma_pub_log_len(rows.drop_last());
    }
}

/// One more amount leaves the other sums as they are.
proof fn lemma_sums_fit_after(log: Seq<(Seq<char>, int)>, name: Seq<char>, amount: int)
    requires
        forall|k: int| 0 <= k < tally(log).len() ==> fits((#[trigger] tally(log)[k]).1),
        fits(total_for(log.push((name, amount)), name)),
    ensures
        forall|k: int|
            0 <= k < tally(log.push((name, amount))).len() ==> fits(
                (#[trigger] tally(log.push((name, amount)))[k]).1,
            ),
{
    let more = log.push((name, amount));
    assert(more.drop_last() =~= log);
    assert forall|k: int| 0 <= k < tally(more).len() implies fits((#[trigger] tally(more)[k]).1) by {
        let n = names_of(more)[k];
        if n != name {
            assert(total_for(more, n) == total_for(log, n));
            assert(k < names_of(log).len());
            assert(tally(log)[k].1 == total_for(log, n));
        }
    }
}

/// Buckets by key, for all rows and nothing else.
pub(crate) open spec fn buckets_of(
    buckets: Seq<Bucket>,
    rows: Seq<RowView>,
    normalize: bool,
) -> bool {
    &&& forall|k: int|
        0 <= k < buckets.len() ==> (#[trigger] buckets[k]).wf() && buckets[k].rows@.len() > 0
            && buckets[k].rows@ == bucket(rows, normalize, buckets[k].key@)
    &&& forall|i: int, j: int|
        0 <= i < j < buckets.len() ==> text_lt(
            (#[trigger] buckets[i]).key@,
            (#[trigger] buckets[j]).key@,
        )
    &&& forall|r: int|
        0 <= r < rows.len() ==> exists|k: int|
            0 <= k < buckets.len() && (#[trigger] buckets[k]).key@ == key_of(
                (#[trigger] rows[r]).cat,
                normalize,
            )
}

/// A bucket holds rows of its key alone, each of them a row that there is.
pub(crate) proof fn lemma_bucket_rows(rows: Seq<RowView>, normalize: bool, key: Seq<char>)
    ensures
        bucket(rows, normalize, key).len() <= rows.len(),
        forall|i: int|
            0 <= i < bucket(rows, normalize, key).len() ==> key_of(
                (#[trigger] bucket(rows, normalize, key)[i]).cat,
                normalize,
            ) == key && rows.contains(bucket(rows, normalize, key)[i]),
    decreases rows.len(),
{
    if rows.len() > 0 {
        let early = rows.drop_last();
        lemma_bucket_rows(early, normalize, key);
        let b = bucket(rows, normalize, key);
        let e = bucket(early, normalize, key);
        assert forall|i: int| 0 <= i < b.len() implies key_of((#[trigger] b[i]).cat, normalize)
            == key && rows.contains(b[i]) by {
            if i < e.len() {
                assert(b[i] == e[i]);
                let r = choose|r: int| 0 <= r < early.len() && early[r] == e[i];
                assert(rows[r] == e[i]);
            } else {
                assert(rows[rows.len() - 1] == b[i]);
            }
        }
    }
}

/// A key that no row has belongs to no row.
proof fn lemma_bucket_empty(rows: Seq<RowView>, normalize: bool, key: Seq<char>)
    requires
        forall|r: int| 0 <= r < rows.len() ==> key_of((#[trigger] rows[r]).cat, normalize) != key,
    ensures
        bucket(rows, normalize, key) == Seq::<RowView>::empty(),
{
    lemma_bucket_rows(rows, normalize, key);
    let b = bucket(rows, normalize, key);
    if b.len() > 0 {
        assert(rows.contains(b[0]));
    }
    assert(b =~= Seq::<RowView>::empty());
}

/// Where the place of a key holds another key, no bucket has it.
proof fn lemma_not_found(
    buckets: Seq<Bucket>,
    rows: Seq<RowView>,
    normalize: bool,
    key: Seq<char>,
    pos: int,
)
    requires
        buckets_of(buckets, rows, normalize),
        0 <= pos <= buckets.len(),
        forall|i: int| 0 <= i < pos ==> text_lt((#[trigger] buckets[i]).key@, key),
        forall|i: int| pos <= i < buckets.len() ==> !text_lt((#[trigger] buckets[i]).key@, key),
        pos < buckets.len() ==> buckets[pos].key@ != key,
    ensures
        forall|k: int| 0 <= k < buckets.len() ==> (#[trigger] buckets[k]).key@ != key,
        bucket(rows, normalize, key) == Seq::<RowView>::empty(),
{
    assert forall|k: int| 0 <= k < buckets.len() implies (#[trigger] buckets[k]).key@ != key by {
        if buckets[k].key@ == key {
            lemma_text_lt_irreflexive(key);
            if k > pos {
                assert(text_lt(buckets[pos].key@, buckets[k].key@));
            }
        }
    }
    assert forall|r: int| 0 <= r < rows.len() implies key_of((#[trigger] rows[r]).cat, normalize)
        != key by {
        let k = choose|k: int|
            0 <= k < buckets.len() && (#[trigger] buckets[k]).key@ == key_of(
                rows[r].cat,
                normalize,
            );
        assert(buckets[k].key@ != key);
    }
    lemma_bucket_empty(rows, normalize, key);
}

/// A further row of a key that has a bucket.
proof fn lemma_grow_bucket(
    before: Seq<Bucket>,
    after: Seq<Bucket>,
    rows: Seq<RowView>,
    row: RowView,
    normalize: bool,
    pos: int,
)
    requires
        buckets_of(before, rows, normalize),
        0 <= pos < before.len(),
        before[pos].key@ == key_of(row.cat, normalize),
        after == before.update(pos, after[pos]),
        after[pos].wf(),
        after[pos].key@ == before[pos].key@,
        after[pos].rows@ == before[pos].rows@.push(row),
    ensures
        buckets_of(after, rows.push(row), normalize),
{
    let more = rows.push(row);
    assert(more.drop_last() =~= rows);
    assert forall|k: int| 0 <= k < after.len() implies (#[trigger] after[k]).wf()
        && after[k].rows@.len() > 0 && after[k].rows@ == bucket(more, normalize, after[k].key@) by {
        if k != pos {
            assert(after[k] == before[k]);
            lemma_text_lt_irreflexive(before[k].key@);
            assert(before[k].key@ != before[pos].key@);
        }
    }
    assert forall|i: int, j: int| 0 <= i < j < after.len() implies text_lt(
        (#[trigger] after[i]).key@,
        (#[trigger] after[j]).key@,
    ) by {
        assert(after[i].key@ == before[i].key@);
        assert(after[j].key@ == before[j].key@);
    }
    assert forall|r: int| 0 <= r < more.len() implies exists|k: int|
        0 <= k < after.len() && (#[trigger] after[k]).key@ == key_of(
            (#[trigger] more[r]).cat,
            normalize,
        ) by {
        if r < rows.len() {
            assert(more[r] == rows[r]);
            let k = choose|k: int|
                0 <= k < before.len() && (#[trigger] before[k]).key@ == key_of(
                    rows[r].cat,
                    normalize,
                );
            assert(after[k].key@ == before[k].key@);
        } else {
            assert(after[pos].key@ == key_of(more[r].cat, normalize));
        }
    }
}

/// The first row of a key.
proof fn lemma_new_bucket(
    before: Seq<Bucket>,
    fresh: Bucket,
    rows: Seq<RowView>,
    row: RowView,
    normalize: bool,
    pos: int,
)
    requires
        buckets_of(before, rows, normalize),
        0 <= pos <= before.len(),
        fresh.wf(),
        fresh.key@ == key_of(row.cat, normalize),
        fresh.rows@ == seq![row],
        bucket(rows, normalize, fresh.key@) == Seq::<RowView>::empty(),
        forall|i: int| 0 <= i < pos ==> text_lt((#[trigger] before[i]).key@, fresh.key@),
        forall|i: int|
            pos <= i < before.len() ==> !text_lt((#[trigger] before[i]).key@, fresh.key@),
        forall|k: int| 0 <= k < before.len() ==> (#[trigger] before[k]).key@ != fresh.key@,
    ensures
        buckets_of(before.insert(pos, fresh), rows.push(row), normalize),
{
    let after = before.insert(pos, fresh);
    let more = rows.push(row);
    assert(more.drop_last() =~= rows);
    assert forall|k: int| 0 <= k < after.len() implies (#[trigger] after[k]).wf()
        && after[k].rows@.len() > 0 && after[k].rows@ == bucket(more, normalize, after[k].key@) by {
        if k < pos {
            assert(after[k] == before[k]);
        } else if k == pos {
            assert(after[k].rows@ =~= bucket(more, normalize, after[k].key@));
        } else {
            assert(after[k] == before[k - 1]);
        }
    }
    assert forall|i: int, j: int| 0 <= i < j < after.len() implies text_lt(
        (#[trigger] after[i]).key@,
        (#[trigger] after[j]).key@,
    ) by {
        let a = if i < pos {
            before[i]
        } else if i == pos {
            fresh
        } else {
            before[i - 1]
        };
        let b = if j < pos {
            before[j]
        } else if j == pos {
            fresh
        } else {
            before[j - 1]
        };
        assert(after[i] == a && after[j] == b);
        if i == pos {
            lemma_text_lt_total(fresh.key@, b.key@);
        }
    }
    assert forall|r: int| 0 <= r < more.len() implies exists|k: int|
        0 <= k < after.len() && (#[trigger] after[k]).key@ == key_of(
            (#[trigger] more[r]).cat,
            normalize,
        ) by {
        if r < rows.len() {
            assert(more[r] == rows[r]);
            let k = choose|k: int|
                0 <= k < before.len() && (#[trigger] before[k]).key@ == key_of(
                    rows[r].cat,
                    normalize,
                );
            if k < pos {
                assert(after[k] == before[k]);
            } else {
                assert(after[k + 1] == before[k]);
            }
        } else {
            assert(after[pos].key@ == key_of(more[r].cat, normalize));
        }
    }
}

/// The place of a key among buckets that are ordered by their keys.
fn place(buckets: &Vec<Bucket>, key: &String) -> (pos: usize)
    requires
        forall|i: int, j: int|
            0 <= i < j < buckets@.len() ==> text_lt(
                (#[trigger] buckets@[i]).key@,
                (#[trigger] buckets@[j]).key@,
            ),
    ensures
        pos <= buckets@.len(),
        forall|i: int| 0 <= i < pos ==> text_lt((#[trigger] buckets@[i]).key@, key@),
        forall|i: int| pos <= i < buckets@.len() ==> !text_lt((#[trigger] buckets@[i]).key@, key@),
{
    let mut lo: usize = 0;
    let mut hi: usize = buckets.len();
    while lo < hi
        invariant
            lo <= hi <= buckets@.len(),
            forall|i: int, j: int|
                0 <= i < j < buckets@.len() ==> text_lt(
                    (#[trigger] buckets@[i]).key@,
                    (#[trigger] buckets@[j]).key@,
                ),
            forall|i: int| 0 <= i < lo ==> text_lt((#[trigger] buckets@[i]).key@, key@),
            forall|i: int|
                hi <= i < buckets@.len() ==> !text_lt((#[trigger] buckets@[i]).key@, key@),
        decreases hi - lo,
    {
        let mid: usize = lo + (hi - lo) / 2;
        if text_before(buckets[mid].key.as_str(), key.as_str()) {
            proof {
                assert forall|i: int| 0 <= i < mid + 1 implies text_lt(
                    (#[trigger] buckets@[i]).key@,
                    key@,
                ) by {
                    if i < mid {
                        lemma_text_lt_transitive(buckets@[i].key@, buckets@[mid as int].key@, key@);
                    }
                }
            }
            lo = mid + 1;
        } else {
            proof {
                assert forall|i: int| mid <= i < buckets@.len() implies !text_lt(
                    (#[trigger] buckets@[i]).key@,
                    key@,
                ) by {
                    if i > mid && text_lt(buckets@[i].key@, key@) {
                        lemma_text_lt_transitive(buckets@[mid as int].key@, buckets@[i].key@, key@);
                    }
                }
            }
            hi = mid;
        }
    }
    lo
}

/// The key of the category that a label belongs to.
fn key_text(cat: &String, normalize: bool) -> (key: String)
    ensures
        key@ == key_of(cat@, normalize),
{
    if normalize {
        normalize_key(cat.as_str())
    } else {
        cat.clone()
    }
}

/// Gathers rows into buckets; `None` where a sum on the way cannot be held.
#[verifier::loop_isolation(false)]
pub(crate) fn gather(rows: &Vec<GroupRow>, normalize: bool) -> (out: Option<Vec<Bucket>>)
    ensures
        out is Some <==> running_sums_fit(row_views(rows@), normalize),
        out matches Some(buckets) ==> buckets_of(buckets@, row_views(rows@), normalize),
{
    let ghost all = row_views(rows@);
    let mut buckets: Vec<Bucket> = Vec::new();
    let mut i: usize = 0;
    while i < rows.len()
        invariant
            i <= rows@.len(),
            buckets_of(buckets@, all.take(i as int), normalize),
            forall|n: int| 0 < n <= i ==> #[trigger] step_fits(all, normalize, n),
        decreases rows@.len() - i,
    {
        let row = &rows[i];
        let key = key_text(&row.key.cat, normalize);
        let pos: usize = place(&buckets, &key);
        let found = pos < buckets.len() && buckets[pos].key == key;
        let ghost seen = all.take(i as int);
        let ghost next = all.take(i + 1);
        let ghost before = buckets@;
        proof {
            assert(next =~= seen.push(row@));
            assert(next.drop_last() =~= seen);
            lemma_bucket_rows(seen, normalize, key@);
            assert(all[i as int] == row@);
        }
        if found {
            let ok = buckets[pos].add(row);
            if !ok {
                assert(!step_fits(all, normalize, i + 1));
                return None;
            }
            proof {
                lemma_grow_bucket(before, buckets@, seen, row@, normalize, pos as int);
            }
        } else {
            proof {
                lemma_not_found(before, seen, normalize, key@, pos as int);
            }
            let mut b = Bucket::new(key);
            let ok = b.add(row);
            if !ok {
                assert(!step_fits(all, normalize, i + 1));
                return None;
            }
            proof {
                assert(b.rows@ =~= seq![row@]);
                lemma_new_bucket(before, b, seen, row@, normalize, pos as int);
            }
            buckets.insert(pos, b);
        }
        assert(step_fits(all, normalize, i + 1));
        i += 1;
    }
    assert(all.take(rows@.len() as int) =~= all);
    Some(buckets)
}

/// The line with the largest sum, or the first where no sum is positive.
fn lead(lines: &Vec<Line>) -> (best: usize)
    requires
        lines@.len() > 0,
    ensures
        leading(lines@.map_values(|l: Line| l@), best as int),
{
    let ghost t = lines@.map_values(|l: Line| l@);
    let mut best: usize = 0;
    let mut top: i128 = 0;
    let mut i: usize = 0;
    while i < lines.len()
        invariant
            i <= lines@.len(),
            best < lines@.len(),
            t == lines@.map_values(|l: Line| l@),
            forall|j: int| 0 <= j < i ==> (#[trigger] t[j]).1 <= top,
            top >= 0,
            top == 0 ==> best == 0,
            top > 0 ==> top == t[best as int].1 && forall|j: int|
                0 <= j < best ==> (#[trigger] t[j]).1 < top,
        decreases lines@.len() - i,
    {
        assert(t[i as int] == lines@[i as int]@);
        if lines[i].sum > top {
            best = i;
            top = lines[i].sum;
        }
        i += 1;
    }
    best
}

/// The publications of a tally, by size, without those that contribute nothing.
#[verifier::loop_isolation(false)]
fn list_pubs(pubs: &Tally) -> (out: Vec<PubCount>)
    requires
        pubs.wf(),
        forall|k: int|
            0 <= k < tally(pubs.log@).len() ==> fits((#[trigger] tally(pubs.log@)[k]).1),
    ensures
        strictly_ordered(pub_views(out@), |a: PubView, b: PubView| pub_ahead(a, b)),
        forall|p: PubView| #[trigger]
            pub_views(out@).contains(p) <==> p.count != 0 && tally(pubs.log@).contains(
                (p.pubname, p.count),
            ),
{
    let ghost t = tally(pubs.log@);
    let ghost lines = pubs.lines@.map_values(|l: Line| l@);
    let mut list: Vec<PubCount> = Vec::new();
    let mut i: usize = 0;
    proof {
        lemma_names_of(pubs.log@);
        assert(lines == t);
        assert(lines.len() == pubs.lines@.len());
    }
    while i < pubs.lines.len()
        invariant
            i <= pubs.lines@.len(),
            forall|a: int|
                0 <= a < list@.len() ==> (#[trigger] list@[a]).count != 0 && exists|k: int|
                    0 <= k < i && #[trigger] t[k] == (list@[a].pubname@, list@[a].count as int),
            forall|a: int, b: int|
                0 <= a < b < list@.len() ==> (#[trigger] list@[a]).pubname@ != (
                #[trigger] list@[b]).pubname@,
            forall|k: int|
                0 <= k < i && (#[trigger] t[k]).1 != 0 ==> exists|a: int|
                    0 <= a < list@.len() && (#[trigger] list@[a]).pubname@ == t[k].0
                        && list@[a].count == t[k].1,
        decreases pubs.lines@.len() - i,
    {
        let ghost before = list@;
        assert(lines[i as int] == pubs.lines@[i as int]@);
        assert(fits(t[i as int].1));
        let sum: i128 = pubs.lines[i].sum;
        if sum != 0 {
            let p = PubCount { pubname: pubs.lines[i].name.clone(), count: sum as i64 };
            proof {
                assert forall|a: int| 0 <= a < before.len() implies (
                #[trigger] before[a]).pubname@ != p.pubname@ by {
                    let k = choose|k: int|
                        0 <= k < i && #[trigger] t[k] == (
                            before[a].pubname@,
                            before[a].count as int,
                        );
                    assert(names_of(pubs.log@)[k] != names_of(pubs.log@)[i as int]);
                }
                assert(t[i as int] == (p.pubname@, p.count as int));
            }
            list.push(p);
            proof {
                assert forall|a: int| 0 <= a < list@.len() implies (
                #[trigger] list@[a]).count != 0 && exists|k: int|
                    0 <= k < i + 1 && #[trigger] t[k] == (
                        list@[a].pubname@,
                        list@[a].count as int,
                    ) by {
                    if a < before.len() {
                        assert(list@[a] == before[a]);
                        let k = choose|k: int|
                            0 <= k < i && #[trigger] t[k] == (
                                before[a].pubname@,
                                before[a].count as int,
                            );
                        assert(t[k] == (list@[a].pubname@, list@[a].count as int));
                    } else {
                        assert(list@[a] == p);
                    }
                }
                assert forall|k: int| 0 <= k < i + 1 && (#[trigger] t[k]).1 != 0 implies exists|
                    a: int,
                |
                    0 <= a < list@.len() && (#[trigger] list@[a]).pubname@ == t[k].0
                        && list@[a].count == t[k].1 by {
                    if k < i {
                        let a = choose|a: int|
                            0 <= a < before.len() && (#[trigger] before[a]).pubname@ == t[k].0
                                && before[a].count == t[k].1;
                        assert(list@[a] == before[a]);
                    } else {
                        assert(list@[before.len() as int] == p);
                    }
                }
            }
        }
        i += 1;
    }
    let ghost unsorted = list@;
    let out = ranked(list);
    proof {
        assert(unsorted.no_duplicates()) by {
            assert forall|a: int, b: int|
                0 <= a < unsorted.len() && 0 <= b < unsorted.len() && a != b implies unsorted[a]
                != unsorted[b] by {
                if a < b {
                    assert(unsorted[a].pubname@ != unsorted[b].pubname@);
                } else {
                    assert(unsorted[b].pubname@ != unsorted[a].pubname@);
                }
            }
        }
        lemma_same_items(unsorted, out@);
        let views = pub_views(out@);
        let lt = |a: PubView, b: PubView| pub_ahead(a, b);
        assert forall|i: int, j: int| 0 <= i < j < views.len() implies #[trigger] lt(
            views[i],
            views[j],
        ) by {
            assert(!out@[j].ahead(out@[i]));
            assert(out@.contains(out@[i]));
            assert(out@.contains(out@[j]));
            assert(unsorted.contains(out@[i]));
            assert(unsorted.contains(out@[j]));
            let a = choose|a: int| 0 <= a < unsorted.len() && unsorted[a] == out@[i];
            let b = choose|b: int| 0 <= b < unsorted.len() && unsorted[b] == out@[j];
            if a < b {
                assert(unsorted[a].pubname@ != unsorted[b].pubname@);
            } else {
                assert(a != b);
                assert(unsorted[b].pubname@ != unsorted[a].pubname@);
            }
            lemma_text_lt_total(views[i].pubname, views[j].pubname);
        }
        assert forall|p: PubView| #[trigger] views.contains(p) <==> p.count != 0 && t.contains(
            (p.pubname, p.count),
        ) by {
            if views.contains(p) {
                let i = choose|i: int| 0 <= i < views.len() && views[i] == p;
                assert(out@.contains(out@[i]));
                assert(unsorted.contains(out@[i]));
                let a = choose|a: int| 0 <= a < unsorted.len() && unsorted[a] == out@[i];
                let k = choose|k: int|
                    0 <= k < pubs.lines@.len() && #[trigger] t[k] == (
                        unsorted[a].pubname@,
                        unsorted[a].count as int,
                    );
                assert(t[k] == (p.pubname, p.count));
            }
            if p.count != 0 && t.contains((p.pubname, p.count)) {
                let k = choose|k: int| 0 <= k < t.len() && t[k] == (p.pubname, p.count);
                let a = choose|a: int|
                    0 <= a < unsorted.len() && (#[trigger] unsorted[a]).pubname@ == t[k].0
                        && unsorted[a].count == t[k].1;
                assert(unsorted.contains(unsorted[a]));
                assert(out@.contains(unsorted[a]));
                let i = choose|i: int| 0 <= i < out@.len() && out@[i] == unsorted[a];
                assert(views[i] == p);
            }
        }
    }
    out
}

/// The category that a bucket comes to.
pub(crate) fn settle(b: &Bucket) -> (g: CatGroup)
    requires
        b.wf(),
        b.rows@.len() > 0,
    ensures
        describes(g@, b.rows@),
{
    proof {
        lemma_names_of(b.spellings.log@);
        assert(b.spellings.lines@.map_values(|l: Line| l@).len() == b.spellings.lines@.len());
    }
    let best: usize = lead(&b.spellings.lines);
    let cat = b.spellings.lines[best].name.clone();
    assert(b.spellings.lines@.map_values(|l: Line| l@)[best as int]
        == b.spellings.lines@[best as int]@);
    assert(is_label(b.rows@, cat@));
    CatGroup { cat, count: b.total, pubs: list_pubs(&b.pubs) }
}

} // verus!
