//! What holds of every grouping of rows into categories.

use vstd::prelude::*;
use crate::buckets::lemma_bucket_rows;
use crate::groups::{
    bucket, count_sum, describes, group_ahead, group_total, grouping, is_label, key_of, leading,
    lemma_label_is_spelling, pub_ahead, pub_log, pub_total, spelling_log, GroupView, PubView,
    RowView,
};
use crate::rank::lemma_strict_order_unique;
use crate::label::normal_key;
use crate::tally::{
    lemma_names_of, lemma_total_for_absent, names_of, tally, total_for, total_of,
};
use crate::text::{lemma_text_lt_irreflexive, lemma_text_lt_transitive, text_lt};

verus! {

/// The sums under some names, together.
spec fn sum_under(log: Seq<(Seq<char>, int)>, names: Seq<Seq<char>>) -> int
    decreases names.len(),
{
    if names.len() == 0 {
        0
    } else {
        sum_under(log, names.drop_last()) + total_for(log, names.last())
    }
}

proof fn lemma_sum_under_step(
    log: Seq<(Seq<char>, int)>,
    name: Seq<char>,
    amount: int,
    names: Seq<Seq<char>>,
)
    requires
        names.no_duplicates(),
    ensures
        sum_under(log.push((name, amount)), names) == sum_under(log, names) + if names.contains(
            name,
        ) {
            amount
        } else {
            0
        },
    decreases names.len(),
{
    let more = log.push((name, amount));
    assert(more.drop_last() =~= log);
    if names.len() > 0 {
        let front = names.drop_last();
        assert(front.no_duplicates());
        lemma_sum_under_step(log, name, amount, front);
        if names.contains(name) {
            let i = choose|i: int| 0 <= i < names.len() && names[i] == name;
            if i < front.len() {
                assert(front[i] == name);
            }
        }
        if front.contains(name) {
            let i = choose|i: int| 0 <= i < front.len() && front[i] == name;
            assert(names[i] == name);
            assert(names[names.len() - 1] != name);
        }
    }
}

/// Where some names, each once, cover all that occur, the sums under them are the
/// sum of all amounts.
proof fn lemma_sum_under_all(log: Seq<(Seq<char>, int)>, names: Seq<Seq<char>>)
    requires
        names.no_duplicates(),
        forall|i: int| 0 <= i < log.len() ==> names.contains((#[trigger] log[i]).0),
    ensures
        sum_under(log, names) == total_of(log),
    decreases log.len(),
{
    if log.len() == 0 {
        lemma_sum_under_nothing(log, names);
    } else {
        let early = log.drop_last();
        assert forall|i: int| 0 <= i < early.len() implies names.contains((#[trigger] early[i]).0) by {
            assert(early[i] == log[i]);
        }
        lemma_sum_under_all(early, names);
        lemma_sum_under_step(early, log.last().0, log.last().1, names);
        assert(early.push((log.last().0, log.last().1)) =~= log);
        assert(names.contains(log[log.len() - 1].0));
    }
}

proof fn lemma_sum_under_nothing(log: Seq<(Seq<char>, int)>, names: Seq<Seq<char>>)
    requires
        forall|k: int| 0 <= k < names.len() ==> total_for(log, #[trigger] names[k]) == 0,
    ensures
        sum_under(log, names) == 0,
    decreases names.len(),
{
    if names.len() > 0 {
        let front = names.drop_last();
        assert forall|k: int| 0 <= k < front.len() implies total_for(log, #[trigger] front[k])
            == 0 by {
            assert(front[k] == names[k]);
        }
        lemma_sum_under_nothing(log, front);
        assert(total_for(log, names[names.len() - 1]) == 0);
    }
}

proof fn lemma_sum_under_concat(
    log: Seq<(Seq<char>, int)>,
    x: Seq<Seq<char>>,
    y: Seq<Seq<char>>,
)
    ensures
        sum_under(log, x + y) == sum_under(log, x) + sum_under(log, y),
    decreases y.len(),
{
    if y.len() == 0 {
        assert(x + y =~= x);
    } else {
        lemma_sum_under_concat(log, x, y.drop_last());
        assert((x + y).drop_last() =~= x + y.drop_last());
    }
}

/// The names that are not among others, each once.
proof fn lemma_rest(all: Seq<Seq<char>>, some: Seq<Seq<char>>) -> (rest: Seq<Seq<char>>)
    requires
        all.no_duplicates(),
    ensures
        rest.no_duplicates(),
        forall|n: Seq<char>| #[trigger]
            rest.contains(n) <==> all.contains(n) && !some.contains(n),
    decreases all.len(),
{
    if all.len() == 0 {
        Seq::empty()
    } else {
        let front = all.drop_last();
        assert(front.no_duplicates());
        let early = lemma_rest(front, some);
        let x = all.last();
        assert forall|n: Seq<char>| all.contains(n) <==> front.contains(n) || n == x by {
            if all.contains(n) {
                let i = choose|i: int| 0 <= i < all.len() && all[i] == n;
                if i < front.len() {
                    assert(front[i] == n);
                }
            }
            if front.contains(n) {
                let i = choose|i: int| 0 <= i < front.len() && front[i] == n;
                assert(all[i] == n);
            }
            assert(all[all.len() - 1] == x);
        }
        assert(!front.contains(x)) by {
            if front.contains(x) {
                let i = choose|i: int| 0 <= i < front.len() && front[i] == x;
                assert(all[i] == all[all.len() - 1]);
            }
        }
        if some.contains(x) {
            early
        } else {
            let rest = early.push(x);
            assert forall|n: Seq<char>| #[trigger] rest.contains(n) <==> all.contains(n)
                && !some.contains(n) by {
                if early.contains(n) {
                    let i = choose|i: int| 0 <= i < early.len() && early[i] == n;
                    assert(rest[i] == n);
                }
                if rest.contains(n) {
                    let i = choose|i: int| 0 <= i < rest.len() && rest[i] == n;
                    if i < early.len() {
                        assert(early[i] == n);
                    }
                }
                assert(rest[early.len() as int] == x);
            }
            assert(!early.contains(x));
            rest
        }
    }
}

/// Names that leave out only what has nothing under it still carry all amounts.
proof fn lemma_sum_under_nonzero(log: Seq<(Seq<char>, int)>, names: Seq<Seq<char>>)
    requires
        names.no_duplicates(),
        forall|n: Seq<char>| #[trigger]
            names_of(log).contains(n) && !names.contains(n) ==> total_for(log, n) == 0,
    ensures
        sum_under(log, names) == total_of(log),
{
    lemma_names_of(log);
    let rest = lemma_rest(names_of(log), names);
    let all = names + rest;
    assert forall|k: int| 0 <= k < rest.len() implies total_for(log, #[trigger] rest[k]) == 0 by {
        assert(rest.contains(rest[k]));
    }
    assert(all.no_duplicates()) by {
        assert forall|i: int, j: int|
            0 <= i < all.len() && 0 <= j < all.len() && i != j implies all[i] != all[j] by {
            if i < names.len() && j >= names.len() {
                assert(names.contains(names[i]));
                assert(rest.contains(rest[j - names.len()]));
            }
            if j < names.len() && i >= names.len() {
                assert(names.contains(names[j]));
                assert(rest.contains(rest[i - names.len()]));
            }
        }
    }
    assert forall|i: int| 0 <= i < log.len() implies all.contains((#[trigger] log[i]).0) by {
        let n = log[i].0;
        assert(names_of(log).contains(n));
        if names.contains(n) {
            let k = choose|k: int| 0 <= k < names.len() && names[k] == n;
            assert(all[k] == n);
        } else {
            assert(rest.contains(n));
            let k = choose|k: int| 0 <= k < rest.len() && rest[k] == n;
            assert(all[names.len() + k] == n);
        }
    }
    lemma_sum_under_all(log, all);
    lemma_sum_under_nothing(log, rest);
    lemma_sum_under_concat(log, names, rest);
}

/// The articles of each row, under the key of its category.
spec fn key_log(rows: Seq<RowView>, normalize: bool) -> Seq<(Seq<char>, int)> {
    rows.map_values(|r: RowView| (key_of(r.cat, normalize), r.count))
}

proof fn lemma_key_log(rows: Seq<RowView>, normalize: bool, key: Seq<char>)
    ensures
        total_for(key_log(rows, normalize), key) == count_sum(bucket(rows, normalize, key)),
        total_of(key_log(rows, normalize)) == count_sum(rows),
    decreases rows.len(),
{
    if rows.len() > 0 {
        let early = rows.drop_last();
        lemma_key_log(early, normalize, key);
        assert(key_log(rows, normalize).drop_last() =~= key_log(early, normalize));
        let b = bucket(early, normalize, key);
        assert(b.push(rows.last()).drop_last() =~= b);
    }
}

proof fn lemma_group_total(
    rows: Seq<RowView>,
    normalize: bool,
    groups: Seq<GroupView>,
    keys: Seq<Seq<char>>,
)
    requires
        keys.len() == groups.len(),
        forall|i: int|
            0 <= i < groups.len() ==> (#[trigger] groups[i]).count == count_sum(
                bucket(rows, normalize, keys[i]),
            ),
    ensures
        group_total(groups) == sum_under(key_log(rows, normalize), keys),
    decreases groups.len(),
{
    if groups.len() > 0 {
        let g = groups.drop_last();
        let k = keys.drop_last();
        assert forall|i: int| 0 <= i < g.len() implies (#[trigger] g[i]).count == count_sum(
            bucket(rows, normalize, k[i]),
        ) by {
            assert(g[i] == groups[i]);
        }
        lemma_group_total(rows, normalize, g, k);
        lemma_key_log(rows, normalize, keys.last());
        assert(groups[groups.len() - 1].count == count_sum(bucket(rows, normalize, keys.last())));
    }
}

/// The categories hold every article of the rows, and none twice: their counts add
/// up to those of the rows, whether labels are merged or not.
pub proof fn law_total_covers_all_rows(
    rows: Seq<RowView>,
    normalize: bool,
    groups: Seq<GroupView>,
)
    requires
        grouping(rows, normalize, groups),
    ensures
        group_total(groups) == count_sum(rows),
{
    let keys = groups.map_values(|g: GroupView| key_of(g.cat, normalize));
    let log = key_log(rows, normalize);
    assert(keys.no_duplicates()) by {
        assert forall|i: int, j: int|
            0 <= i < keys.len() && 0 <= j < keys.len() && i != j implies keys[i] != keys[j] by {
            if i < j {
                assert(key_of(groups[i].cat, normalize) != key_of(groups[j].cat, normalize));
            } else {
                assert(key_of(groups[j].cat, normalize) != key_of(groups[i].cat, normalize));
            }
        }
    }
    assert forall|r: int| 0 <= r < log.len() implies keys.contains((#[trigger] log[r]).0) by {
        assert(log[r].0 == key_of(rows[r].cat, normalize));
        let i = choose|i: int|
            0 <= i < groups.len() && key_of((#[trigger] groups[i]).cat, normalize) == key_of(
                rows[r].cat,
                normalize,
            );
        assert(keys[i] == log[r].0);
    }
    lemma_sum_under_all(log, keys);
    lemma_group_total(rows, normalize, groups, keys);
    lemma_key_log(rows, normalize, Seq::empty());
}

/// Merging label variants does not change how many articles are counted.
pub proof fn law_normalizing_keeps_total(
    rows: Seq<RowView>,
    plain: Seq<GroupView>,
    merged: Seq<GroupView>,
)
    requires
        grouping(rows, false, plain),
        grouping(rows, true, merged),
    ensures
        group_total(plain) == group_total(merged),
{
    law_total_covers_all_rows(rows, false, plain);
    law_total_covers_all_rows(rows, true, merged);
}

proof fn lemma_pub_total(log: Seq<(Seq<char>, int)>, pubs: Seq<PubView>, names: Seq<Seq<char>>)
    requires
        names.len() == pubs.len(),
        forall|i: int|
            0 <= i < pubs.len() ==> (#[trigger] pubs[i]).count == total_for(log, names[i]),
    ensures
        pub_total(pubs) == sum_under(log, names),
    decreases pubs.len(),
{
    if pubs.len() > 0 {
        let p = pubs.drop_last();
        let n = names.drop_last();
        assert forall|i: int| 0 <= i < p.len() implies (#[trigger] p[i]).count == total_for(
            log,
            n[i],
        ) by {
            assert(p[i] == pubs[i]);
        }
        lemma_pub_total(log, p, n);
        assert(pubs[pubs.len() - 1].count == total_for(log, names.last()));
    }
}

proof fn lemma_pub_log_total(rows: Seq<RowView>)
    requires
        forall|r: int| 0 <= r < rows.len() ==> (#[trigger] rows[r]).pubname is Some,
    ensures
        total_of(pub_log(rows)) == count_sum(rows),
    decreases rows.len(),
{
    if rows.len() > 0 {
        let early = rows.drop_last();
        assert forall|r: int| 0 <= r < early.len() implies (
        #[trigger] early[r]).pubname is Some by {
            assert(early[r] == rows[r]);
        }
        lemma_pub_log_total(early);
        assert(rows[rows.len() - 1].pubname is Some);
        let p = rows.last().pubname->0;
        assert(pub_log(early).push((p, rows.last().count)).drop_last() =~= pub_log(early));
    }
}

/// A line of a tally is a name with the sum under it.
proof fn lemma_tally_line(log: Seq<(Seq<char>, int)>, name: Seq<char>, sum: int)
    ensures
        tally(log).contains((name, sum)) <==> names_of(log).contains(name) && sum == total_for(
            log,
            name,
        ),
{
    if tally(log).contains((name, sum)) {
        let k = choose|k: int| 0 <= k < tally(log).len() && tally(log)[k] == (name, sum);
        assert(names_of(log)[k] == name);
    }
    if names_of(log).contains(name) && sum == total_for(log, name) {
        let k = choose|k: int| 0 <= k < names_of(log).len() && names_of(log)[k] == name;
        assert(tally(log)[k] == (name, sum));
    }
}

/// Where every row names its publication, the publications of a category split its
/// articles: their counts add up to the count of the category.
pub proof fn law_publications_split_category(
    rows: Seq<RowView>,
    normalize: bool,
    groups: Seq<GroupView>,
    i: int,
)
    requires
        grouping(rows, normalize, groups),
        forall|r: int| 0 <= r < rows.len() ==> (#[trigger] rows[r]).pubname is Some,
        0 <= i < groups.len(),
    ensures
        pub_total(groups[i].pubs) == groups[i].count,
{
    let g = groups[i];
    let b = bucket(rows, normalize, key_of(g.cat, normalize));
    assert(describes(g, b));
    lemma_bucket_rows(rows, normalize, key_of(g.cat, normalize));
    assert forall|r: int| 0 <= r < b.len() implies (#[trigger] b[r]).pubname is Some by {
        assert(rows.contains(b[r]));
        let q = choose|q: int| 0 <= q < rows.len() && rows[q] == b[r];
        assert(rows[q].pubname is Some);
    }
    lemma_pub_log_total(b);
    let log = pub_log(b);
    let names = g.pubs.map_values(|p: PubView| p.pubname);
    assert forall|k: int| 0 <= k < g.pubs.len() implies (#[trigger] g.pubs[k]).count == total_for(
        log,
        names[k],
    ) by {
        assert(g.pubs.contains(g.pubs[k]));
        lemma_tally_line(log, g.pubs[k].pubname, g.pubs[k].count);
    }
    lemma_pub_total(log, g.pubs, names);
    let lt = |a: PubView, b: PubView| pub_ahead(a, b);
    assert(names.no_duplicates()) by {
        assert forall|x: int, y: int|
            0 <= x < names.len() && 0 <= y < names.len() && x != y implies names[x] != names[y] by {
            let p = if x < y {
                x
            } else {
                y
            };
            let q = if x < y {
                y
            } else {
                x
            };
            assert(lt(g.pubs[p], g.pubs[q]));
            if names[p] == names[q] {
                assert(g.pubs[p].count == g.pubs[q].count);
                lemma_text_lt_irreflexive(names[p]);
            }
        }
    }
    assert forall|n: Seq<char>| #[trigger] names_of(log).contains(n) && !names.contains(n) implies
        total_for(log, n) == 0 by {
        if total_for(log, n) != 0 {
            let p = PubView { pubname: n, count: total_for(log, n) };
            lemma_tally_line(log, n, total_for(log, n));
            assert(g.pubs.contains(p));
            let k = choose|k: int| 0 <= k < g.pubs.len() && g.pubs[k] == p;
            assert(names[k] == n);
        }
    }
    lemma_sum_under_nonzero(log, names);
}

/// Each row belongs to exactly one category; without merging that category bears the
/// row's own label.
pub proof fn law_one_category_per_row(
    rows: Seq<RowView>,
    normalize: bool,
    groups: Seq<GroupView>,
    r: int,
)
    requires
        grouping(rows, normalize, groups),
        0 <= r < rows.len(),
    ensures
        exists|i: int|
            0 <= i < groups.len() && key_of((#[trigger] groups[i]).cat, normalize) == key_of(
                rows[r].cat,
                normalize,
            ),
        forall|i: int, j: int|
            0 <= i < groups.len() && 0 <= j < groups.len() && key_of(
                (#[trigger] groups[i]).cat,
                normalize,
            ) == key_of(rows[r].cat, normalize) && key_of((#[trigger] groups[j]).cat, normalize)
                == key_of(rows[r].cat, normalize) ==> i == j,
        !normalize ==> exists|i: int|
            0 <= i < groups.len() && (#[trigger] groups[i]).cat == rows[r].cat,
{
    let i = choose|i: int|
        0 <= i < groups.len() && key_of((#[trigger] groups[i]).cat, normalize) == key_of(
            rows[r].cat,
            normalize,
        );
    assert(key_of(rows[r].cat, normalize) == key_of(rows[r].cat, normalize));
    assert(0 <= i < groups.len() && key_of(groups[i].cat, normalize) == key_of(
        rows[r].cat,
        normalize,
    ));
    assert forall|a: int, b: int|
        0 <= a < groups.len() && 0 <= b < groups.len() && key_of(
            (#[trigger] groups[a]).cat,
            normalize,
        ) == key_of(rows[r].cat, normalize) && key_of((#[trigger] groups[b]).cat, normalize)
            == key_of(rows[r].cat, normalize) implies a == b by {
        if a < b {
            assert(key_of(groups[a].cat, normalize) != key_of(groups[b].cat, normalize));
        } else if b < a {
            assert(key_of(groups[b].cat, normalize) != key_of(groups[a].cat, normalize));
        }
    }
}

proof fn lemma_leading_unique(lines: Seq<(Seq<char>, int)>, j: int, k: int)
    requires
        leading(lines, j),
        leading(lines, k),
    ensures
        j == k,
{
    if exists|i: int| 0 <= i < lines.len() && (#[trigger] lines[i]).1 > 0 {
        assert(lines[j].1 <= lines[k].1);
        assert(lines[k].1 <= lines[j].1);
        if j < k {
            assert(lines[j].1 < lines[k].1);
        } else if k < j {
            assert(lines[k].1 < lines[j].1);
        }
    }
}

proof fn lemma_describes_unique(x: GroupView, y: GroupView, rows: Seq<RowView>)
    requires
        describes(x, rows),
        describes(y, rows),
    ensures
        x == y,
{
    let t = tally(spelling_log(rows));
    let j = choose|j: int| #[trigger] leading(t, j) && x.cat == t[j].0;
    let k = choose|k: int| #[trigger] leading(t, k) && y.cat == t[k].0;
    lemma_leading_unique(t, j, k);
    let lt = |a: PubView, b: PubView| pub_ahead(a, b);
    assert forall|a: PubView, b: PubView| #[trigger] lt(a, b) implies !lt(b, a) by {
        if text_lt(a.pubname, b.pubname) && text_lt(b.pubname, a.pubname) {
            lemma_text_lt_transitive(a.pubname, b.pubname, a.pubname);
            lemma_text_lt_irreflexive(a.pubname);
        }
    }
    assert forall|p: PubView| x.pubs.contains(p) <==> y.pubs.contains(p) by {
        assert(x.pubs.contains(p) <==> p.count != 0 && tally(pub_log(rows)).contains(
            (p.pubname, p.count),
        ));
        assert(y.pubs.contains(p) <==> p.count != 0 && tally(pub_log(rows)).contains(
            (p.pubname, p.count),
        ));
    }
    lemma_strict_order_unique(x.pubs, y.pubs, lt);
}

proof fn lemma_grouping_contained(
    rows: Seq<RowView>,
    normalize: bool,
    x: Seq<GroupView>,
    y: Seq<GroupView>,
    g: GroupView,
)
    requires
        grouping(rows, normalize, x),
        grouping(rows, normalize, y),
        x.contains(g),
    ensures
        y.contains(g),
{
    let i = choose|i: int| 0 <= i < x.len() && x[i] == g;
    let key = key_of(x[i].cat, normalize);
    let b = bucket(rows, normalize, key);
    lemma_bucket_rows(rows, normalize, key);
    assert(b.len() > 0 && describes(x[i], b));
    assert(key_of(b[0].cat, normalize) == key && rows.contains(b[0]));
    let r = choose|r: int| 0 <= r < rows.len() && rows[r] == b[0];
    let j = choose|j: int|
        0 <= j < y.len() && key_of((#[trigger] y[j]).cat, normalize) == key_of(
            rows[r].cat,
            normalize,
        );
    assert(describes(y[j], b));
    lemma_describes_unique(x[i], y[j], b);
    assert(y[j] == g);
}

/// The rows fix the categories: their names, counts, publications and order.
pub proof fn law_grouping_unique(
    rows: Seq<RowView>,
    normalize: bool,
    x: Seq<GroupView>,
    y: Seq<GroupView>,
)
    requires
        grouping(rows, normalize, x),
        grouping(rows, normalize, y),
    ensures
        x == y,
{
    let lt = |a: GroupView, b: GroupView| group_ahead(a, b);
    assert forall|a: GroupView, b: GroupView| #[trigger] lt(a, b) implies !lt(b, a) by {
        if text_lt(a.cat, b.cat) && text_lt(b.cat, a.cat) {
            lemma_text_lt_transitive(a.cat, b.cat, a.cat);
            lemma_text_lt_irreflexive(a.cat);
        }
    }
    assert forall|g: GroupView| x.contains(g) <==> y.contains(g) by {
        if x.contains(g) {
            lemma_grouping_contained(rows, normalize, x, y, g);
        }
        if y.contains(g) {
            lemma_grouping_contained(rows, normalize, y, x, g);
        }
    }
    lemma_strict_order_unique(x, y, lt);
}

/// A row is in the bucket of its key.
proof fn lemma_bucket_has(rows: Seq<RowView>, normalize: bool, r: int)
    requires
        0 <= r < rows.len(),
    ensures
        bucket(rows, normalize, key_of(rows[r].cat, normalize)).contains(rows[r]),
    decreases rows.len(),
{
    let key = key_of(rows[r].cat, normalize);
    let b = bucket(rows, normalize, key);
    if r == rows.len() - 1 {
        assert(b[b.len() - 1] == rows[r]);
    } else {
        let early = rows.drop_last();
        lemma_bucket_has(early, normalize, r);
        let e = bucket(early, normalize, key);
        let k = choose|k: int| 0 <= k < e.len() && e[k] == rows[r];
        assert(b[k] == rows[r]);
    }
}

/// A category bears the spelling of one of its rows, and no spelling among its rows
/// under which there are articles is more common.
pub proof fn law_name_is_most_common_spelling(
    rows: Seq<RowView>,
    normalize: bool,
    groups: Seq<GroupView>,
    i: int,
    r: int,
)
    requires
        grouping(rows, normalize, groups),
        0 <= i < groups.len(),
        0 <= r < rows.len(),
        key_of(rows[r].cat, normalize) == key_of(groups[i].cat, normalize),
    ensures
        exists|q: int| 0 <= q < rows.len() && (#[trigger] rows[q]).cat == groups[i].cat,
        ({
            let log = spelling_log(bucket(rows, normalize, key_of(groups[i].cat, normalize)));
            total_for(log, rows[r].cat) > 0 ==> total_for(log, rows[r].cat) <= total_for(
                log,
                groups[i].cat,
            )
        }),
{
    let key = key_of(groups[i].cat, normalize);
    let b = bucket(rows, normalize, key);
    let label = groups[i].cat;
    assert(describes(groups[i], b));
    lemma_bucket_rows(rows, normalize, key);
    lemma_label_is_spelling(b, label);
    let p = choose|p: int| 0 <= p < b.len() && (#[trigger] b[p]).cat == label;
    assert(rows.contains(b[p]));
    let q = choose|q: int| 0 <= q < rows.len() && rows[q] == b[p];
    assert(rows[q].cat == label);

    let log = spelling_log(b);
    let t = tally(log);
    lemma_names_of(log);
    lemma_bucket_has(rows, normalize, r);
    let s = choose|s: int| 0 <= s < b.len() && b[s] == rows[r];
    assert(log[s].0 == rows[r].cat);
    assert(names_of(log).contains(rows[r].cat));
    let k = choose|k: int| #[trigger] leading(t, k) && label == t[k].0;
    let j = choose|j: int| 0 <= j < names_of(log).len() && names_of(log)[j] == rows[r].cat;
    assert(t[j].1 == total_for(log, rows[r].cat));
    assert(t[k].1 == total_for(log, label));
}

/// The name of a category is the label of a row with its key.
pub(crate) proof fn lemma_name_is_row(
    rows: Seq<RowView>,
    normalize: bool,
    groups: Seq<GroupView>,
    i: int,
) -> (r: int)
    requires
        grouping(rows, normalize, groups),
        0 <= i < groups.len(),
    ensures
        0 <= r < rows.len(),
        rows[r].cat == groups[i].cat,
{
    let key = key_of(groups[i].cat, normalize);
    let b = bucket(rows, normalize, key);
    assert(describes(groups[i], b));
    lemma_bucket_rows(rows, normalize, key);
    lemma_label_is_spelling(b, groups[i].cat);
    let p = choose|p: int| 0 <= p < b.len() && (#[trigger] b[p]).cat == groups[i].cat;
    assert(rows.contains(b[p]));
    choose|r: int| 0 <= r < rows.len() && rows[r] == b[p]
}

/// Merging label variants never gives more categories.
pub proof fn law_merging_never_adds(
    rows: Seq<RowView>,
    plain: Seq<GroupView>,
    merged: Seq<GroupView>,
)
    requires
        grouping(rows, false, plain),
        grouping(rows, true, merged),
    ensures
        merged.len() <= plain.len(),
{
    let few = merged.map_values(|g: GroupView| g.cat);
    let many = plain.map_values(|g: GroupView| g.cat);
    assert(few.no_duplicates()) by {
        assert forall|i: int, j: int|
            0 <= i < few.len() && 0 <= j < few.len() && i != j implies few[i] != few[j] by {
            if i < j {
                assert(key_of(merged[i].cat, true) != key_of(merged[j].cat, true));
            } else {
                assert(key_of(merged[j].cat, true) != key_of(merged[i].cat, true));
            }
        }
    }
    assert forall|c: Seq<char>| few.to_set().contains(c) implies many.to_set().contains(c) by {
        let i = choose|i: int| 0 <= i < few.len() && few[i] == c;
        let r = lemma_name_is_row(rows, true, merged, i);
        law_one_category_per_row(rows, false, plain, r);
        let j = choose|j: int| 0 <= j < plain.len() && (#[trigger] plain[j]).cat == rows[r].cat;
        assert(many[j] == c);
    }
    few.unique_seq_to_set();
    many.lemma_cardinality_of_set();
    vstd::set_lib::lemma_len_subset(few.to_set(), many.to_set());
}

proof fn lemma_bucket_without_variants(rows: Seq<RowView>, cat: Seq<char>)
    requires
        forall|r: int|
            0 <= r < rows.len() && normal_key((#[trigger] rows[r]).cat) == normal_key(cat)
                ==> rows[r].cat == cat,
    ensures
        bucket(rows, true, key_of(cat, true)) == bucket(rows, false, key_of(cat, false)),
    decreases rows.len(),
{
    if rows.len() > 0 {
        let early = rows.drop_last();
        assert forall|r: int|
            0 <= r < early.len() && normal_key((#[trigger] early[r]).cat) == normal_key(
                cat,
            ) implies early[r].cat == cat by {
            assert(early[r] == rows[r]);
        }
        lemma_bucket_without_variants(early, cat);
        assert(rows.last() == rows[rows.len() - 1]);
    }
}

/// Where no two labels are variants of each other, merging changes nothing.
pub proof fn law_merging_without_variants(
    rows: Seq<RowView>,
    plain: Seq<GroupView>,
    merged: Seq<GroupView>,
)
    requires
        grouping(rows, false, plain),
        grouping(rows, true, merged),
        forall|r: int, q: int|
            0 <= r < rows.len() && 0 <= q < rows.len() && normal_key((#[trigger] rows[r]).cat)
                == normal_key((#[trigger] rows[q]).cat) ==> rows[r].cat == rows[q].cat,
    ensures
        plain == merged,
{
    assert forall|i: int| 0 <= i < plain.len() implies bucket(
        rows,
        true,
        key_of((#[trigger] plain[i]).cat, true),
    ) == bucket(rows, false, key_of(plain[i].cat, false)) by {
        let r = lemma_name_is_row(rows, false, plain, i);
        lemma_bucket_without_variants(rows, plain[i].cat);
    }
    assert forall|i: int, j: int| 0 <= i < j < plain.len() implies key_of(
        (#[trigger] plain[i]).cat,
        true,
    ) != key_of((#[trigger] plain[j]).cat, true) by {
        let r = lemma_name_is_row(rows, false, plain, i);
        let q = lemma_name_is_row(rows, false, plain, j);
        assert(key_of(plain[i].cat, false) != key_of(plain[j].cat, false));
        assert(rows[r].cat != rows[q].cat);
    }
    assert forall|r: int| 0 <= r < rows.len() implies exists|i: int|
        0 <= i < plain.len() && key_of((#[trigger] plain[i]).cat, true) == key_of(
            (#[trigger] rows[r]).cat,
            true,
        ) by {
        law_one_category_per_row(rows, false, plain, r);
        let i = choose|i: int| 0 <= i < plain.len() && (#[trigger] plain[i]).cat == rows[r].cat;
        assert(key_of(plain[i].cat, true) == key_of(rows[r].cat, true));
    }
    assert(grouping(rows, true, plain));
    law_grouping_unique(rows, true, plain, merged);
}

/// What some rows weigh together.
spec fn weigh(rows: Seq<RowView>, weight: spec_fn(RowView) -> int) -> int
    decreases rows.len(),
{
    if rows.len() == 0 {
        0
    } else {
        weigh(rows.drop_last(), weight) + weight(rows.last())
    }
}

proof fn lemma_weigh_remove(rows: Seq<RowView>, j: int, weight: spec_fn(RowView) -> int)
    requires
        0 <= j < rows.len(),
    ensures
        weigh(rows, weight) == weigh(rows.remove(j), weight) + weight(rows[j]),
    decreases rows.len(),
{
    if j == rows.len() - 1 {
        assert(rows.remove(j) =~= rows.drop_last());
    } else {
        lemma_weigh_remove(rows.drop_last(), j, weight);
        assert(rows.remove(j).drop_last() =~= rows.drop_last().remove(j));
        assert(rows.remove(j).last() == rows.last());
    }
}

/// The order of rows does not change what they weigh.
proof fn lemma_weigh_order(x: Seq<RowView>, y: Seq<RowView>, weight: spec_fn(RowView) -> int)
    requires
        x.to_multiset() == y.to_multiset(),
    ensures
        weigh(x, weight) == weigh(y, weight),
    decreases x.len(),
{
    broadcast use vstd::seq_lib::group_to_multiset_ensures;

    assert(x.to_multiset().len() == x.len());
    assert(y.to_multiset().len() == y.len());
    if x.len() > 0 {
        let row = x.last();
        assert(x.contains(row));
        assert(y.to_multiset().count(row) > 0);
        assert(y.contains(row));
        let j = choose|j: int| 0 <= j < y.len() && y[j] == row;
        let n = x.len() - 1;
        assert(x.remove(n) =~= x.drop_last());
        assert(x.drop_last().to_multiset() =~= x.to_multiset().remove(row));
        assert(y.remove(j).to_multiset() =~= y.to_multiset().remove(row));
        lemma_weigh_order(x.drop_last(), y.remove(j), weight);
        lemma_weigh_remove(y, j, weight);
    }
}

/// The articles of a row, where it has a label.
spec fn weight_under(cat: Seq<char>) -> spec_fn(RowView) -> int {
    |r: RowView|
        if r.cat == cat {
            r.count
        } else {
            0
        }
}

/// The articles of a row, where it has a label and a publication.
spec fn weight_of_pub(cat: Seq<char>, p: Seq<char>) -> spec_fn(RowView) -> int {
    |r: RowView|
        if r.cat == cat && r.pubname == Some(p) {
            r.count
        } else {
            0
        }
}

proof fn lemma_bucket_weighs(rows: Seq<RowView>, cat: Seq<char>, p: Seq<char>)
    ensures
        count_sum(bucket(rows, false, cat)) == weigh(rows, weight_under(cat)),
        total_for(pub_log(bucket(rows, false, cat)), p) == weigh(rows, weight_of_pub(cat, p)),
    decreases rows.len(),
{
    if rows.len() > 0 {
        let early = rows.drop_last();
        lemma_bucket_weighs(early, cat, p);
        let b = bucket(early, false, cat);
        let row = rows.last();
        assert(b.push(row).drop_last() =~= b);
        if row.cat == cat && row.pubname is Some {
            let log = pub_log(b);
            assert(log.push((row.pubname->0, row.count)).drop_last() =~= log);
        }
    }
}

/// A publication contributes something exactly where that is the sum under its name.
proof fn lemma_contributes(log: Seq<(Seq<char>, int)>, name: Seq<char>, sum: int)
    ensures
        sum != 0 && tally(log).contains((name, sum)) <==> sum != 0 && sum == total_for(log, name),
{
    lemma_tally_line(log, name, sum);
    if !names_of(log).contains(name) {
        lemma_total_for_absent(log, name);
    }
}

/// Rows of one label alone have that label as their name.
proof fn lemma_only_label(rows: Seq<RowView>, cat: Seq<char>)
    requires
        rows.len() > 0,
        forall|r: int| 0 <= r < rows.len() ==> (#[trigger] rows[r]).cat == cat,
    ensures
        is_label(rows, cat),
{
    let log = spelling_log(rows);
    let names = names_of(log);
    lemma_names_of(log);
    assert(names[0] == log[0].0);
    assert(log[0].0 == rows[0].cat);
    if names.len() > 1 {
        assert(names.contains(names[1]));
        let i = choose|i: int| 0 <= i < log.len() && (#[trigger] log[i]).0 == names[1];
        assert(log[i].0 == rows[i].cat);
    }
    assert(leading(tally(log), 0));
}

/// Without merging, the order of the rows does not matter.
pub proof fn law_row_order_ignored(
    rows: Seq<RowView>,
    others: Seq<RowView>,
    x: Seq<GroupView>,
    y: Seq<GroupView>,
)
    requires
        rows.to_multiset() == others.to_multiset(),
        grouping(rows, false, x),
        grouping(others, false, y),
    ensures
        x == y,
{
    broadcast use vstd::seq_lib::group_to_multiset_ensures;

    assert forall|r: RowView| rows.contains(r) <==> others.contains(r) by {
        assert(rows.contains(r) <==> rows.to_multiset().count(r) > 0);
        assert(others.contains(r) <==> others.to_multiset().count(r) > 0);
    }
    assert forall|i: int| 0 <= i < x.len() implies bucket(
        others,
        false,
        key_of((#[trigger] x[i]).cat, false),
    ).len() > 0 && describes(x[i], bucket(others, false, key_of(x[i].cat, false))) by {
        let cat = x[i].cat;
        let a = bucket(rows, false, cat);
        let b = bucket(others, false, cat);
        assert(key_of(cat, false) == cat);
        assert(describes(x[i], a));
        let r = lemma_name_is_row(rows, false, x, i);
        assert(others.contains(rows[r]));
        let q = choose|q: int| 0 <= q < others.len() && others[q] == rows[r];
        lemma_bucket_has(others, false, q);
        lemma_bucket_rows(others, false, cat);
        assert(b.len() > 0);
        assert forall|k: int| 0 <= k < b.len() implies (#[trigger] b[k]).cat == cat by {
            assert(key_of(b[k].cat, false) == cat);
        }
        lemma_only_label(b, cat);
        lemma_bucket_weighs(rows, cat, Seq::empty());
        lemma_bucket_weighs(others, cat, Seq::empty());
        lemma_weigh_order(rows, others, weight_under(cat));
        assert forall|p: PubView| #[trigger] x[i].pubs.contains(p) <==> p.count != 0 && tally(
            pub_log(b),
        ).contains((p.pubname, p.count)) by {
            lemma_bucket_weighs(rows, cat, p.pubname);
            lemma_bucket_weighs(others, cat, p.pubname);
            lemma_weigh_order(rows, others, weight_of_pub(cat, p.pubname));
            lemma_contributes(pub_log(a), p.pubname, p.count);
            lemma_contributes(pub_log(b), p.pubname, p.count);
        }
    }
    assert forall|q: int| 0 <= q < others.len() implies exists|i: int|
        0 <= i < x.len() && key_of((#[trigger] x[i]).cat, false) == key_of(
            (#[trigger] others[q]).cat,
            false,
        ) by {
        assert(others.contains(others[q]));
        assert(rows.contains(others[q]));
        let r = choose|r: int| 0 <= r < rows.len() && rows[r] == others[q];
        law_one_category_per_row(rows, false, x, r);
        let i = choose|i: int| 0 <= i < x.len() && (#[trigger] x[i]).cat == rows[r].cat;
        assert(key_of(x[i].cat, false) == key_of(others[q].cat, false));
    }
    assert(grouping(others, false, x));
    law_grouping_unique(others, false, x, y);
}

} // verus!
