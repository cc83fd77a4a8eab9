//! Arranging rows: a stable sort, and the start of a list.

use crate::model::views;
use vstd::prelude::*;
use vstd::seq_lib::{
    to_multiset_build, to_multiset_contains, to_multiset_insert, to_multiset_len,
    to_multiset_remove,
};

verus! {

/// Rows that a dashboard section puts in an order of its own.
pub trait Ranked: View + Sized {
    /// Whether a row seen as `a` has to stand before one seen as `b`.
    spec fn ahead(a: Self::V, b: Self::V) -> bool;

    /// Whether this row has to stand before `other`.
    fn is_ahead(&self, other: &Self) -> (r: bool)
        ensures
            r == Self::ahead(self@, other@),
    ;
}

/// The start of a list: at most `n` rows of it.
pub open spec fn first_rows<A>(rows: Seq<A>, n: nat) -> Seq<A> {
    if rows.len() <= n {
        rows
    } else {
        rows.take(n as int)
    }
}

/// Where `x` goes in the arranged rows `s`: before the rows at the end that it
/// has to stand before, after all the others.
pub open spec fn slot<T: Ranked>(s: Seq<T::V>, x: T::V) -> int
    decreases s.len(),
{
    if s.len() > 0 && T::ahead(x, s.last()) {
        slot::<T>(s.drop_last(), x)
    } else {
        s.len() as int
    }
}

/// The rows `s` in their order; rows that neither has to stand before the other
/// keep the order they came in.
pub open spec fn arranged<T: Ranked>(s: Seq<T::V>) -> Seq<T::V>
    decreases s.len(),
{
    if s.len() == 0 {
        s
    } else {
        let rest = arranged::<T>(s.drop_last());
        rest.insert(slot::<T>(rest, s.last()), s.last())
    }
}

/// A slot lies within the rows or at their end.
pub proof fn slot_is_a_position<T: Ranked>(s: Seq<T::V>, x: T::V)
    ensures
        0 <= slot::<T>(s, x) <= s.len(),
    decreases s.len(),
{
    if s.len() > 0 && T::ahead(x, s.last()) {
        slot_is_a_position::<T>(s.drop_last(), x);
    }
}

/// Whether the rows of a kind can be put in an order: no two rows have to stand
/// before each other, and rows that need not stand before one another chain.
pub open spec fn is_an_order<T: Ranked>() -> bool {
    &&& forall|a: T::V, b: T::V| #[trigger] T::ahead(a, b) ==> !T::ahead(b, a)
    &&& forall|a: T::V, b: T::V, c: T::V|
        !#[trigger] T::ahead(a, b) && !#[trigger] T::ahead(b, c) ==> !T::ahead(a, c)
}

/// Whether no row has to stand before one in front of it.
pub open spec fn in_order<T: Ranked>(s: Seq<T::V>) -> bool {
    forall|i: int, j: int| 0 <= i < j < s.len() ==> !T::ahead(#[trigger] s[j], #[trigger] s[i])
}

/// Arranging rows neither loses nor adds any.
pub proof fn arranging_keeps_the_rows<T: Ranked>(s: Seq<T::V>)
    ensures
        arranged::<T>(s).len() == s.len(),
        arranged::<T>(s).to_multiset() == s.to_multiset(),
    decreases s.len(),
{
    if s.len() > 0 {
        let rest = arranged::<T>(s.drop_last());
        arranging_keeps_the_rows::<T>(s.drop_last());
        slot_is_a_position::<T>(rest, s.last());
        to_multiset_insert(rest, slot::<T>(rest, s.last()), s.last());
        assert(s =~= s.drop_last().push(s.last()));
        to_multiset_build(s.drop_last(), s.last());
    }
}

/// The arranged rows are the same rows: each is there as it was, and none is there twice
/// that was not.
pub proof fn arranged_rows_are_the_same_rows<T: Ranked>(s: Seq<T::V>)
    ensures
        forall|x: T::V| #[trigger] arranged::<T>(s).contains(x) <==> s.contains(x),
        s.no_duplicates() ==> arranged::<T>(s).no_duplicates(),
{
    let r = arranged::<T>(s);
    arranging_keeps_the_rows::<T>(s);
    assert forall|x: T::V| #[trigger] r.contains(x) <==> s.contains(x) by {
        to_multiset_contains(r, x);
        to_multiset_contains(s, x);
    }
    if s.no_duplicates() {
        s.lemma_multiset_has_no_duplicates();
        r.lemma_multiset_has_no_duplicates_conv();
    }
}

/// What a slot is: `x` has to stand before every row from there on, and not before
/// the row in front of it.
proof fn slot_splits_the_rows<T: Ranked>(s: Seq<T::V>, x: T::V)
    ensures
        ({
            let p = slot::<T>(s, x);
            &&& 0 <= p <= s.len()
            &&& forall|i: int| p <= i < s.len() ==> T::ahead(x, #[trigger] s[i])
            &&& p > 0 ==> !T::ahead(x, s[p - 1])
        }),
    decreases s.len(),
{
    if s.len() > 0 && T::ahead(x, s.last()) {
        slot_splits_the_rows::<T>(s.drop_last(), x);
        let p = slot::<T>(s, x);
        assert forall|i: int| p <= i < s.len() implies T::ahead(x, #[trigger] s[i]) by {
            if i < s.len() - 1 {
                assert(s.drop_last()[i] == s[i]);
            }
        }
    }
}

/// Arranged rows are in order.
pub proof fn arranged_rows_are_in_order<T: Ranked>(s: Seq<T::V>)
    requires
        is_an_order::<T>(),
    ensures
        in_order::<T>(arranged::<T>(s)),
    decreases s.len(),
{
    if s.len() > 0 {
        let rest = arranged::<T>(s.drop_last());
        let x = s.last();
        let p = slot::<T>(rest, x);
        let all = rest.insert(p, x);
        arranged_rows_are_in_order::<T>(s.drop_last());
        slot_splits_the_rows::<T>(rest, x);
        assert forall|i: int, j: int| 0 <= i < j < all.len() implies !T::ahead(
            #[trigger] all[j],
            #[trigger] all[i],
        ) by {
            if i < p && j == p {
                if i < p - 1 {
                    assert(!T::ahead(rest[p - 1], rest[i]));
                }
                assert(!T::ahead(x, rest[p - 1]));
            } else if i == p {
                assert(all[j] == rest[j - 1]);
                assert(T::ahead(x, rest[j - 1]));
            } else {
                let k = if i < p { i } else { i - 1 };
                let l = if j < p { j } else { j - 1 };
                assert(all[i] == rest[k] && all[j] == rest[l]);
                assert(!T::ahead(rest[l], rest[k]));
            }
        }
    }
}

/// Rows that need not change places do not: of two rows where the later one does not have
/// to stand before the earlier one, the earlier one comes out first.
pub proof fn what_need_not_change_places_does_not<T: Ranked>(s: Seq<T::V>, i: int, j: int)
    requires
        0 <= i < j < s.len(),
        !T::ahead(s[j], s[i]),
    ensures
        exists|k: int, l: int|
            0 <= k < l < arranged::<T>(s).len() && #[trigger] arranged::<T>(s)[k] == s[i]
                && #[trigger] arranged::<T>(s)[l] == s[j],
    decreases s.len(),
{
    let front = s.drop_last();
    let rest = arranged::<T>(front);
    let x = s.last();
    let p = slot::<T>(rest, x);
    let all = arranged::<T>(s);
    slot_splits_the_rows::<T>(rest, x);
    if j < front.len() {
        assert(front[i] == s[i] && front[j] == s[j]);
        what_need_not_change_places_does_not::<T>(front, i, j);
        let (k, l) = choose|k: int, l: int|
            0 <= k < l < rest.len() && #[trigger] rest[k] == s[i] && #[trigger] rest[l] == s[j];
        let m = if k < p { k } else { k + 1 };
        let n = if l < p { l } else { l + 1 };
        assert(all[m] == s[i] && all[n] == s[j]);
    } else {
        arranged_rows_are_the_same_rows::<T>(front);
        assert(front[i] == s[i]);
        assert(front.contains(s[i]));
        assert(rest.contains(s[i]));
        let k = choose|k: int| 0 <= k < rest.len() && rest[k] == s[i];
        assert(all[k] == s[i] && all[p] == s[j]);
    }
}

/// Where of any two different rows one has to stand before the other, there is one
/// order only: two lists of the same rows that are in order are the same list.
pub proof fn one_order_only<T: Ranked>(a: Seq<T::V>, b: Seq<T::V>)
    requires
        in_order::<T>(a),
        in_order::<T>(b),
        a.to_multiset() == b.to_multiset(),
        forall|i: int, j: int|
            0 <= i < a.len() && 0 <= j < a.len() && a[i] != a[j] ==> T::ahead(
                #[trigger] a[i],
                #[trigger] a[j],
            ) || T::ahead(a[j], a[i]),
    ensures
        a == b,
    decreases a.len(),
{
    to_multiset_len(a);
    to_multiset_len(b);
    if a.len() == 0 {
        assert(a =~= b);
    } else {
        to_multiset_contains(b, a[0]);
        to_multiset_contains(a, a[0]);
        to_multiset_contains(b, b[0]);
        to_multiset_contains(a, b[0]);
        assert(a.contains(a[0]));
        assert(b.contains(b[0]));
        let j = choose|j: int| 0 <= j < b.len() && b[j] == a[0];
        let i = choose|i: int| 0 <= i < a.len() && a[i] == b[0];
        assert(a[0] == b[0]) by {
            if a[0] != b[0] {
                assert(T::ahead(a[0], a[i]) || T::ahead(a[i], a[0]));
                assert(!T::ahead(b[j], b[0]));
                assert(!T::ahead(a[i], a[0]));
            }
        }
        to_multiset_remove(a, 0);
        to_multiset_remove(b, 0);
        let x = a.remove(0);
        let y = b.remove(0);
        assert forall|i: int, j: int| 0 <= i < j < x.len() implies !T::ahead(
            #[trigger] x[j],
            #[trigger] x[i],
        ) by {
            assert(x[i] == a[i + 1] && x[j] == a[j + 1]);
        }
        assert forall|i: int, j: int| 0 <= i < j < y.len() implies !T::ahead(
            #[trigger] y[j],
            #[trigger] y[i],
        ) by {
            assert(y[i] == b[i + 1] && y[j] == b[j + 1]);
        }
        assert forall|i: int, j: int|
            0 <= i < x.len() && 0 <= j < x.len() && x[i] != x[j] implies T::ahead(
            #[trigger] x[i],
            #[trigger] x[j],
        ) || T::ahead(x[j], x[i]) by {
            assert(x[i] == a[i + 1] && x[j] == a[j + 1]);
        }
        one_order_only::<T>(x, y);
        assert(a =~= seq![a[0]] + x);
        assert(b =~= seq![b[0]] + y);
    }
}

/// Puts the rows in their order.
pub fn arrange<T: Ranked>(rows: Vec<T>) -> (r: Vec<T>)
    ensures
        views(r@) == arranged::<T>(views(rows@)),
{
    let ghost all = views(rows@);
    let mut rest: Vec<T> = rows;
    let mut reversed: Vec<T> = Vec::new();
    while rest.len() > 0
        invariant
            views(rest@) == all.take(rest@.len() as int),
            rest@.len() + reversed@.len() == all.len(),
            forall|i: int|
                0 <= i < reversed@.len() ==> (#[trigger] reversed@[i])@ == all[all.len() - 1 - i],
        decreases rest.len(),
    {
        let ghost before = rest@;
        if let Some(x) = rest.pop() {
            assert(views(before)[before.len() - 1] == x@);
            assert(views(rest@) =~= all.take(rest@.len() as int)) by {
                assert forall|i: int| 0 <= i < rest@.len() implies views(rest@)[i] == all[i] by {
                    assert(views(before)[i] == all[i]);
                }
            }
            reversed.push(x);
        }
    }
    let mut out: Vec<T> = Vec::new();
    assert(views(out@) =~= arranged::<T>(all.take(0)));
    while reversed.len() > 0
        invariant
            out@.len() + reversed@.len() == all.len(),
            views(out@) == arranged::<T>(all.take(out@.len() as int)),
            forall|i: int|
                0 <= i < reversed@.len() ==> (#[trigger] reversed@[i])@ == all[all.len() - 1 - i],
        decreases reversed.len(),
    {
        let ghost k = out@.len() as int;
        let ghost waiting = reversed@;
        if let Some(x) = reversed.pop() {
            assert(waiting[waiting.len() - 1]@ == all[k]);
            assert(x@ == all[k]);
            let ghost sorted = out@;
            let mut at: usize = out.len();
            assert(views(sorted).take(at as int) =~= views(sorted));
            while at > 0 && x.is_ahead(&out[at - 1])
                invariant
                    out@ == sorted,
                    at <= out.len(),
                    slot::<T>(views(sorted), x@) == slot::<T>(views(sorted).take(at as int), x@),
                decreases at,
            {
                assert(views(sorted).take(at as int).drop_last() =~= views(sorted).take(at - 1));
                at = at - 1;
            }
            proof {
                if at > 0 {
                    assert(views(sorted).take(at as int).last() == sorted[at - 1]@);
                }
                assert(slot::<T>(views(sorted), x@) == at);
                assert(all.take(k + 1).drop_last() =~= all.take(k));
                assert(views(sorted.insert(at as int, x)) =~= views(sorted).insert(at as int, x@));
            }
            out.insert(at, x);
        }
    }
    assert(all.take(all.len() as int) =~= all);
    out
}

} // verus!
