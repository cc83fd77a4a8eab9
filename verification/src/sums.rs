//! Adding up over lists.

use crate::order::{arranged, slot, slot_is_a_position, Ranked};
use vstd::prelude::*;

verus! {

/// What the elements of a list add up to, each counted by its value.
pub open spec fn total_of<A>(rows: Seq<A>, value: spec_fn(A) -> int) -> int
    decreases rows.len(),
{
    if rows.len() == 0 {
        0
    } else {
        total_of(rows.drop_last(), value) + value(rows.last())
    }
}

/// Two lists add up to the sum of what each adds up to.
pub proof fn total_of_both<A>(a: Seq<A>, b: Seq<A>, value: spec_fn(A) -> int)
    ensures
        total_of(a + b, value) == total_of(a, value) + total_of(b, value),
    decreases b.len(),
{
    if b.len() == 0 {
        assert(a + b =~= a);
    } else {
        assert((a + b).drop_last() =~= a + b.drop_last());
        total_of_both(a, b.drop_last(), value);
    }
}

/// One more element adds its value, wherever it goes.
pub proof fn total_with_one_more<A>(rows: Seq<A>, i: int, x: A, value: spec_fn(A) -> int)
    requires
        0 <= i <= rows.len(),
    ensures
        total_of(rows.insert(i, x), value) == total_of(rows, value) + value(x),
{
    let a = rows.take(i);
    let b = rows.skip(i);
    assert(rows =~= a + b);
    assert(rows.insert(i, x) =~= a.push(x) + b);
    assert(a.push(x).drop_last() =~= a);
    total_of_both(a, b, value);
    total_of_both(a.push(x), b, value);
}

/// Arranging changes no total.
pub proof fn arranging_keeps_the_total<T: Ranked>(s: Seq<T::V>, value: spec_fn(T::V) -> int)
    ensures
        total_of(arranged::<T>(s), value) == total_of(s, value),
    decreases s.len(),
{
    if s.len() > 0 {
        let rest = arranged::<T>(s.drop_last());
        arranging_keeps_the_total::<T>(s.drop_last(), value);
        slot_is_a_position::<T>(rest, s.last());
        total_with_one_more(rest, slot::<T>(rest, s.last()), s.last(), value);
    }
}

/// Lists with the same values, element by element, have the same total.
pub proof fn same_totals<A, B>(
    a: Seq<A>,
    b: Seq<B>,
    f: spec_fn(A) -> int,
    g: spec_fn(B) -> int,
)
    requires
        a.len() == b.len(),
        forall|i: int| 0 <= i < a.len() ==> f(#[trigger] a[i]) == g(b[i]),
    ensures
        total_of(a, f) == total_of(b, g),
    decreases a.len(),
{
    if a.len() > 0 {
        assert forall|i: int| 0 <= i < a.len() - 1 implies f(#[trigger] a.drop_last()[i]) == g(
            b.drop_last()[i],
        ) by {
            assert(f(a[i]) == g(b[i]));
        }
        same_totals(a.drop_last(), b.drop_last(), f, g);
        assert(f(a[a.len() - 1]) == g(b[a.len() - 1]));
    }
}

} // verus!
