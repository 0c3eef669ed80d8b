//! Ranked lists: sorting by a strict order, and how far such an order fixes a list.

use vstd::prelude::*;

verus! {

/// Items with a rank: some come ahead of others.
pub trait Ranked: Sized {
    /// Whether one item comes ahead of another.
    spec fn ahead(self, other: Self) -> bool;

    /// Of two items at most one comes ahead of the other.
    proof fn ahead_asymmetric(a: Self, b: Self)
        requires
            a.ahead(b),
        ensures
            !b.ahead(a),
    ;

    /// Where nothing comes ahead of its predecessor, the last does not come ahead
    /// of the first.
    proof fn behind_transitive(a: Self, b: Self, c: Self)
        requires
            !b.ahead(a),
            !c.ahead(b),
        ensures
            !c.ahead(a),
    ;

    /// Whether this item comes ahead of another.
    fn is_ahead(&self, other: &Self) -> (b: bool)
        ensures
            b == self.ahead(*other),
    ;
}

/// No item comes ahead of one that stands before it.
pub open spec fn in_rank_order<T: Ranked>(s: Seq<T>) -> bool {
    forall|i: int, j: int| 0 <= i < j < s.len() ==> !(#[trigger] s[j]).ahead(#[trigger] s[i])
}

/// Merges two lists in rank order into one.
fn merge<T: Ranked>(front: Vec<T>, back: Vec<T>) -> (merged: Vec<T>)
    requires
        in_rank_order(front@),
        in_rank_order(back@),
    ensures
        in_rank_order(merged@),
        merged@.to_multiset() == front@.to_multiset().add(back@.to_multiset()),
{
    let mut a = front;
    let mut b = back;
    let mut rev: Vec<T> = Vec::new();
    let ghost all = front@.to_multiset().add(back@.to_multiset());
    proof {
        broadcast use vstd::seq_lib::group_to_multiset_ensures;

        assert(all =~= a@.to_multiset().add(b@.to_multiset()).add(rev@.to_multiset()));
    }
    while a.len() > 0 || b.len() > 0
        invariant
            in_rank_order(a@),
            in_rank_order(b@),
            forall|i: int, j: int|
                0 <= i < j < rev@.len() ==> !(#[trigger] rev@[i]).ahead(#[trigger] rev@[j]),
            forall|i: int, j: int|
                0 <= i < a@.len() && 0 <= j < rev@.len() ==> !(#[trigger] rev@[j]).ahead(
                    #[trigger] a@[i],
                ),
            forall|i: int, j: int|
                0 <= i < b@.len() && 0 <= j < rev@.len() ==> !(#[trigger] rev@[j]).ahead(
                    #[trigger] b@[i],
                ),
            all == a@.to_multiset().add(b@.to_multiset()).add(rev@.to_multiset()),
        decreases a@.len() + b@.len(),
    {
        let from_back = if a.len() == 0 {
            true
        } else if b.len() == 0 {
            false
        } else {
            !b[b.len() - 1].is_ahead(&a[a.len() - 1])
        };
        let ghost olda = a@;
        let ghost oldb = b@;
        if from_back {
            let x = b.pop().unwrap();
            proof {
                assert forall|i: int| 0 <= i < a@.len() implies !x.ahead(#[trigger] a@[i]) by {
                    if i < a@.len() - 1 {
                        T::behind_transitive(a@[i], a@[a@.len() - 1], x);
                    }
                }
                assert(oldb =~= b@.push(x));
            }
            rev.push(x);
        } else {
            let x = a.pop().unwrap();
            proof {
                if b@.len() > 0 {
                    T::ahead_asymmetric(b@[b@.len() - 1], x);
                }
                assert forall|i: int| 0 <= i < b@.len() implies !x.ahead(#[trigger] b@[i]) by {
                    if i < b@.len() - 1 {
                        T::behind_transitive(b@[i], b@[b@.len() - 1], x);
                    }
                }
                assert(olda =~= a@.push(x));
            }
            rev.push(x);
        }
        proof {
            broadcast use vstd::seq_lib::group_to_multiset_ensures;

            assert(all =~= a@.to_multiset().add(b@.to_multiset()).add(rev@.to_multiset()));
        }
    }
    let mut merged: Vec<T> = Vec::new();
    proof {
        broadcast use vstd::seq_lib::group_to_multiset_ensures;

        assert(all =~= rev@.to_multiset().add(merged@.to_multiset()));
    }
    while rev.len() > 0
        invariant
            in_rank_order(merged@),
            forall|i: int, j: int|
                0 <= i < j < rev@.len() ==> !(#[trigger] rev@[i]).ahead(#[trigger] rev@[j]),
            forall|i: int, j: int|
                0 <= i < merged@.len() && 0 <= j < rev@.len() ==> !(#[trigger] rev@[j]).ahead(
                    #[trigger] merged@[i],
                ),
            all == rev@.to_multiset().add(merged@.to_multiset()),
        decreases rev@.len(),
    {
        let ghost oldrev = rev@;
        let x = rev.pop().unwrap();
        assert(oldrev =~= rev@.push(x));
        merged.push(x);
        proof {
            broadcast use vstd::seq_lib::group_to_multiset_ensures;

            assert(all =~= rev@.to_multiset().add(merged@.to_multiset()));
        }
    }
    proof {
        broadcast use vstd::seq_lib::group_to_multiset_ensures;

        assert(all =~= merged@.to_multiset());
    }
    merged
}

/// The same items in rank order.
pub fn ranked<T: Ranked>(items: Vec<T>) -> (sorted: Vec<T>)
    ensures
        in_rank_order(sorted@),
        sorted@.to_multiset() == items@.to_multiset(),
    decreases items@.len(),
{
    if items.len() <= 1 {
        return items;
    }
    let mut front = items;
    let half: usize = front.len() / 2;
    let back = front.split_off(half);
    proof {
        vstd::seq_lib::lemma_multiset_commutative(front@, back@);
        assert(front@ + back@ =~= items@);
    }
    merge(ranked(front), ranked(back))
}

/// A sequence in which each item comes before all that follow.
pub open spec fn strictly_ordered<A>(s: Seq<A>, lt: spec_fn(A, A) -> bool) -> bool {
    forall|i: int, j: int| 0 <= i < j < s.len() ==> #[trigger] lt(s[i], s[j])
}

/// A strict order fixes a sequence: two sequences with the same items, both strictly
/// ordered, are equal.
pub proof fn lemma_strict_order_unique<A>(x: Seq<A>, y: Seq<A>, lt: spec_fn(A, A) -> bool)
    requires
        strictly_ordered(x, lt),
        strictly_ordered(y, lt),
        forall|a: A, b: A| #[trigger] lt(a, b) ==> !lt(b, a),
        forall|a: A| x.contains(a) <==> y.contains(a),
    ensures
        x == y,
    decreases x.len(),
{
    if x.len() == 0 {
        if y.len() > 0 {
            assert(y.contains(y[0]));
        }
        assert(x =~= y);
    } else {
        let p = x.last();
        assert(x.contains(p));
        assert(y.contains(p));
        let q = y.last();
        assert(y.contains(q));
        assert(x.contains(q));
        if p != q {
            let i = choose|i: int| 0 <= i < y.len() && y[i] == p;
            let j = choose|j: int| 0 <= j < x.len() && x[j] == q;
            assert(lt(y[i], y[y.len() - 1]));
            assert(lt(x[j], x[x.len() - 1]));
        }
        let u = x.drop_last();
        let v = y.drop_last();
        assert forall|a: A| u.contains(a) <==> v.contains(a) by {
            if u.contains(a) {
                let i = choose|i: int| 0 <= i < u.len() && u[i] == a;
                assert(lt(x[i], x[x.len() - 1]));
                assert(x.contains(a));
                assert(y.contains(a));
                let j = choose|j: int| 0 <= j < y.len() && y[j] == a;
                assert(v[j] == a);
            }
            if v.contains(a) {
                let i = choose|i: int| 0 <= i < v.len() && v[i] == a;
                assert(lt(y[i], y[y.len() - 1]));
                assert(y.contains(a));
                assert(x.contains(a));
                let j = choose|j: int| 0 <= j < x.len() && x[j] == a;
                assert(u[j] == a);
            }
        }
        assert forall|i: int, j: int| 0 <= i < j < u.len() implies #[trigger] lt(u[i], u[j]) by {
            assert(lt(x[i], x[j]));
        }
        assert forall|i: int, j: int| 0 <= i < j < v.len() implies #[trigger] lt(v[i], v[j]) by {
            assert(lt(y[i], y[j]));
        }
        lemma_strict_order_unique(u, v, lt);
        assert(x =~= u.push(p));
        assert(y =~= v.push(q));
    }
}

/// Sorting keeps the items: where none occurs twice before, none does after, and the
/// same ones occur.
pub proof fn lemma_same_items<A>(x: Seq<A>, y: Seq<A>)
    requires
        x.to_multiset() == y.to_multiset(),
        x.no_duplicates(),
    ensures
        y.no_duplicates(),
        x.len() == y.len(),
        forall|a: A| x.contains(a) <==> y.contains(a),
{
    broadcast use vstd::seq_lib::group_to_multiset_ensures;

    assert(x.to_multiset().len() == x.len());
    assert(y.to_multiset().len() == y.len());
    x.lemma_multiset_has_no_duplicates();
    y.lemma_multiset_has_no_duplicates_conv();
    assert forall|a: A| x.contains(a) <==> y.contains(a) by {
        assert(x.contains(a) <==> x.to_multiset().count(a) > 0);
        assert(y.contains(a) <==> y.to_multiset().count(a) > 0);
    }
}

} // verus!
