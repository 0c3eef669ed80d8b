//! The grand total, and which categories are shown.

use vstd::prelude::*;
use crate::groups::{
    checked_build_groups, count_sum, fits, group_ahead, group_total, group_views, grouping,
    row_views, running_sums_fit, CatGroup, GroupRow, GroupView, RowView,
};
use crate::laws::{law_grouping_unique, law_total_covers_all_rows};

verus! {

/// Adding the categories up one by one, every sum on the way can be held.
pub open spec fn totals_fit(groups: Seq<GroupView>) -> bool {
    forall|n: int| 0 <= n <= groups.len() ==> fits(#[trigger] group_total(groups.take(n)))
}

/// The articles in all categories; `None` where a sum on the way cannot be held.
pub fn grand_total(groups: &Vec<CatGroup>) -> (total: Option<i64>)
    ensures
        total is Some <==> totals_fit(group_views(groups@)),
        total matches Some(t) ==> t == group_total(group_views(groups@)),
{
    let ghost all = group_views(groups@);
    let mut total: i64 = 0;
    let mut i: usize = 0;
    while i < groups.len()
        invariant
            i <= groups@.len(),
            all == group_views(groups@),
            total == group_total(all.take(i as int)),
            forall|n: int| 0 <= n <= i ==> fits(#[trigger] group_total(all.take(n))),
        decreases groups@.len() - i,
    {
        proof {
            assert(all.take(i + 1).drop_last() =~= all.take(i as int));
            assert(all.take(i + 1).last() == groups@[i as int]@);
        }
        match total.checked_add(groups[i].count) {
            Some(t) => {
                total = t;
            },
            None => {
                assert(!fits(group_total(all.take(i + 1))));
                return None;
            },
        }
        i += 1;
    }
    assert(all.take(all.len() as int) =~= all);
    Some(total)
}

/// The categories with at least `min` articles, in their order.
pub open spec fn at_least(groups: Seq<GroupView>, min: int) -> Seq<GroupView>
    decreases groups.len(),
{
    if groups.len() == 0 {
        Seq::empty()
    } else {
        let earlier = at_least(groups.drop_last(), min);
        if groups.last().count >= min {
            earlier.push(groups.last())
        } else {
            earlier
        }
    }
}

/// The categories that are shown: those with at least `min` articles, and of them the
/// first `top` where that is given. Each is shown whole, with all its publications.
pub open spec fn selected(groups: Seq<GroupView>, min: int, top: Option<nat>) -> Seq<GroupView> {
    let kept = at_least(groups, min);
    match top {
        Some(n) => if n < kept.len() {
            kept.take(n as int)
        } else {
            kept
        },
        None => kept,
    }
}

/// A limit as a natural number.
pub open spec fn limit(top: Option<usize>) -> Option<nat> {
    match top {
        Some(n) => Some(n as nat),
        None => None,
    }
}

/// Chooses the categories that are shown.
pub fn select(groups: Vec<CatGroup>, min: i64, top: Option<usize>) -> (shown: Vec<CatGroup>)
    ensures
        group_views(shown@) == selected(group_views(groups@), min as int, limit(top)),
{
    let ghost all = group_views(groups@);
    let mut rest = groups;
    let mut backwards: Vec<CatGroup> = Vec::new();
    assert(at_least(all, min as int) =~= at_least(group_views(rest@), min as int) + group_views(
        backwards@,
    ).reverse());
    while rest.len() > 0
        invariant
            at_least(all, min as int) == at_least(group_views(rest@), min as int) + group_views(
                backwards@,
            ).reverse(),
        decreases rest@.len(),
    {
        let ghost before = rest@;
        let ghost picked = backwards@;
        let g = rest.pop().unwrap();
        proof {
            assert(group_views(before).drop_last() =~= group_views(rest@));
            assert(group_views(before).last() == g@);
        }
        if g.count >= min {
            backwards.push(g);
            proof {
                assert(group_views(backwards@) =~= group_views(picked).push(g@));
                assert(at_least(group_views(before), min as int) + group_views(picked).reverse()
                    =~= at_least(group_views(rest@), min as int) + group_views(
                    backwards@,
                ).reverse());
            }
        }
    }
    let mut shown: Vec<CatGroup> = Vec::new();
    assert(at_least(all, min as int) =~= group_views(shown@) + group_views(backwards@).reverse());
    while backwards.len() > 0
        invariant
            at_least(all, min as int) == group_views(shown@) + group_views(backwards@).reverse(),
        decreases backwards@.len(),
    {
        let ghost left = backwards@;
        let ghost done = shown@;
        let g = backwards.pop().unwrap();
        shown.push(g);
        proof {
            assert(group_views(left) =~= group_views(backwards@).push(g@));
            assert(group_views(shown@) =~= group_views(done).push(g@));
            assert(group_views(done) + group_views(left).reverse() =~= group_views(shown@)
                + group_views(backwards@).reverse());
        }
    }
    assert(at_least(all, min as int) =~= group_views(shown@));
    if let Some(n) = top {
        shown.truncate(n);
        assert(group_views(shown@) =~= selected(all, min as int, limit(top)));
    }
    shown
}

proof fn lemma_at_least(groups: Seq<GroupView>, min: int)
    ensures
        at_least(groups, min).len() <= groups.len(),
        forall|g: GroupView| #[trigger]
            at_least(groups, min).contains(g) <==> groups.contains(g) && g.count >= min,
        forall|k: int|
            0 <= k < at_least(groups, min).len() ==> groups.contains(
                #[trigger] at_least(groups, min)[k],
            ),
    decreases groups.len(),
{
    if groups.len() > 0 {
        let front = groups.drop_last();
        let x = groups.last();
        lemma_at_least(front, min);
        let early = at_least(front, min);
        let kept = at_least(groups, min);
        assert forall|g: GroupView| #[trigger] kept.contains(g) <==> groups.contains(g) && g.count
            >= min by {
            if kept.contains(g) {
                let k = choose|k: int| 0 <= k < kept.len() && kept[k] == g;
                if k < early.len() {
                    assert(early[k] == g);
                    assert(early.contains(g));
                    let i = choose|i: int| 0 <= i < front.len() && front[i] == g;
                    assert(groups[i] == g);
                } else {
                    assert(groups[groups.len() - 1] == g);
                }
            }
            if groups.contains(g) && g.count >= min {
                let i = choose|i: int| 0 <= i < groups.len() && groups[i] == g;
                if i < front.len() {
                    assert(front[i] == g);
                    assert(early.contains(g));
                    let k = choose|k: int| 0 <= k < early.len() && early[k] == g;
                    assert(kept[k] == g);
                } else {
                    assert(kept[kept.len() - 1] == g);
                }
            }
        }
        assert forall|k: int| 0 <= k < kept.len() implies groups.contains(#[trigger] kept[k]) by {
            assert(kept.contains(kept[k]));
        }
    }
}

proof fn lemma_at_least_ordered(groups: Seq<GroupView>, min: int)
    requires
        forall|i: int, j: int|
            0 <= i < j < groups.len() ==> group_ahead(#[trigger] groups[i], #[trigger] groups[j]),
    ensures
        forall|i: int, j: int|
            0 <= i < j < at_least(groups, min).len() ==> group_ahead(
                #[trigger] at_least(groups, min)[i],
                #[trigger] at_least(groups, min)[j],
            ),
    decreases groups.len(),
{
    if groups.len() > 0 {
        let front = groups.drop_last();
        assert forall|i: int, j: int| 0 <= i < j < front.len() implies group_ahead(
            #[trigger] front[i],
            #[trigger] front[j],
        ) by {
            assert(group_ahead(groups[i], groups[j]));
        }
        lemma_at_least_ordered(front, min);
        lemma_at_least(front, min);
        let early = at_least(front, min);
        let kept = at_least(groups, min);
        assert forall|i: int, j: int| 0 <= i < j < kept.len() implies group_ahead(
            #[trigger] kept[i],
            #[trigger] kept[j],
        ) by {
            if j < early.len() {
                assert(group_ahead(early[i], early[j]));
            } else {
                assert(early.contains(early[i]));
                let k = choose|k: int| 0 <= k < front.len() && front[k] == early[i];
                assert(group_ahead(groups[k], groups[groups.len() - 1]));
            }
        }
    }
}

/// Selection shows whole categories, unchanged and in their order, and only trims:
/// each category is either shown, or has fewer than `min` articles, or comes behind
/// every one of `top` that are shown.
pub proof fn law_selection_shows_largest(
    rows: Seq<RowView>,
    normalize: bool,
    groups: Seq<GroupView>,
    min: int,
    top: Option<nat>,
)
    requires
        grouping(rows, normalize, groups),
    ensures
        forall|g: GroupView| #[trigger]
            selected(groups, min, top).contains(g) ==> groups.contains(g) && g.count >= min,
        forall|i: int, j: int|
            0 <= i < j < selected(groups, min, top).len() ==> group_ahead(
                #[trigger] selected(groups, min, top)[i],
                #[trigger] selected(groups, min, top)[j],
            ),
        forall|g: GroupView|
            groups.contains(g) && !#[trigger] selected(groups, min, top).contains(g) ==> g.count
                < min || (top == Some(selected(groups, min, top).len()) && forall|k: int|
                0 <= k < selected(groups, min, top).len() ==> group_ahead(
                    #[trigger] selected(groups, min, top)[k],
                    g,
                )),
        top matches Some(n) ==> selected(groups, min, top).len() <= n,
{
    let lt = |a: GroupView, b: GroupView| group_ahead(a, b);
    assert forall|i: int, j: int| 0 <= i < j < groups.len() implies group_ahead(
        #[trigger] groups[i],
        #[trigger] groups[j],
    ) by {
        assert(lt(groups[i], groups[j]));
    }
    lemma_at_least(groups, min);
    lemma_at_least_ordered(groups, min);
    let kept = at_least(groups, min);
    let shown = selected(groups, min, top);
    assert forall|i: int, j: int| 0 <= i < j < shown.len() implies group_ahead(
        #[trigger] shown[i],
        #[trigger] shown[j],
    ) by {
        assert(group_ahead(kept[i], kept[j]));
    }
    assert forall|g: GroupView| #[trigger] shown.contains(g) implies groups.contains(g) && g.count
        >= min by {
        let i = choose|i: int| 0 <= i < shown.len() && shown[i] == g;
        assert(kept[i] == g);
        assert(kept.contains(g));
    }
    assert forall|g: GroupView| groups.contains(g) && !#[trigger] shown.contains(g) implies g.count
        < min || (top == Some(shown.len()) && forall|k: int|
        0 <= k < shown.len() ==> group_ahead(#[trigger] shown[k], g)) by {
        if g.count >= min {
            assert(kept.contains(g));
            let j = choose|j: int| 0 <= j < kept.len() && kept[j] == g;
            if j < shown.len() {
                assert(shown[j] == g);
            }
            assert forall|k: int| 0 <= k < shown.len() implies group_ahead(
                #[trigger] shown[k],
                g,
            ) by {
                assert(group_ahead(kept[k], kept[j]));
            }
        }
    }
}

/// What is shown of some rows: the chosen categories, and the total of all of them.
#[derive(Debug, PartialEq, Eq)]
pub struct Summary {
    pub groups: Vec<CatGroup>,
    pub total: i64,
}

/// Whether the sums of some rows, and of their categories, can be held.
pub open spec fn sums_fit(rows: Seq<RowView>, normalize: bool) -> bool {
    &&& running_sums_fit(rows, normalize)
    &&& forall|groups: Seq<GroupView>| #[trigger]
        grouping(rows, normalize, groups) ==> totals_fit(groups)
}

/// The chosen categories of some rows with the total of all rows, those of categories
/// that are not shown among them; `None` where a sum cannot be held.
pub fn summarize(
    rows: Vec<GroupRow>,
    normalize: bool,
    min: i64,
    top: Option<usize>,
) -> (out: Option<Summary>)
    ensures
        out is Some <==> sums_fit(row_views(rows@), normalize),
        out matches Some(s) ==> {
            &&& s.total == count_sum(row_views(rows@))
            &&& exists|groups: Seq<GroupView>| #[trigger]
                grouping(row_views(rows@), normalize, groups) && group_views(s.groups@)
                    == selected(groups, min as int, limit(top))
        },
{
    let ghost all = row_views(rows@);
    match checked_build_groups(rows, normalize) {
        Some(groups) => {
            let ghost views = group_views(groups@);
            proof {
                assert(grouping(all, normalize, views));
                law_total_covers_all_rows(all, normalize, views);
                assert forall|other: Seq<GroupView>| #[trigger] grouping(
                    all,
                    normalize,
                    other,
                ) implies other == views by {
                    law_grouping_unique(all, normalize, other, views);
                }
            }
            match grand_total(&groups) {
                Some(total) => Some(Summary { groups: select(groups, min, top), total }),
                None => None,
            }
        },
        None => None,
    }
}

} // verus!
