//! The total order that the peak finders compare elements by.
//!
//! The element type is any `T: Ord`. What the proofs need of it is stated once,
//! as `total_order::<T>()`: the comparison operators compute what the
//! specification of `partial_cmp` says, and that specification is a total
//! order. The integer types satisfy it (see `vstd::laws_cmp`).

use vstd::prelude::*;
use vstd::std_specs::cmp::{OrdSpec, PartialOrdSpec};
use core::cmp::Ordering;

verus! {

/// The comparisons of `T` follow their specification, which is a total order.
pub open spec fn total_order<T: Ord>() -> bool {
    vstd::laws_cmp::obeys_cmp::<T>()
}

/// `a` is at most `b`.
pub open spec fn le<T: Ord>(a: T, b: T) -> bool {
    a.partial_cmp_spec(&b) matches Some(Ordering::Less | Ordering::Equal)
}

/// `a` is strictly greater than `b`.
pub open spec fn gt<T: Ord>(a: T, b: T) -> bool {
    a.partial_cmp_spec(&b) == Some(Ordering::Greater)
}

/// In a total order every two values are comparable: `a > b` is the negation
/// of `a <= b`, one of `a <= b` and `b <= a` holds, and `a <= a`.
pub proof fn lemma_total<T: Ord>(a: T, b: T)
    requires
        total_order::<T>(),
    ensures
        gt(a, b) <==> !le(a, b),
        gt(a, b) ==> le(b, a),
        le(a, a),
{
    reveal(vstd::laws_cmp::obeys_cmp_ord);
    reveal(vstd::laws_cmp::obeys_cmp_partial_ord);
    reveal(vstd::laws_cmp::obeys_partial_cmp_spec_properties);
    assert(a.partial_cmp_spec(&b) == Some(a.cmp_spec(&b)));
    assert(a.partial_cmp_spec(&a) == Some(a.cmp_spec(&a)));
    assert(b.partial_cmp_spec(&a) == Some(b.cmp_spec(&a)));
}

/// `<=` is transitive.
pub proof fn lemma_le_transitive<T: Ord>(a: T, b: T, c: T)
    requires
        total_order::<T>(),
        le(a, b),
        le(b, c),
    ensures
        le(a, c),
{
    reveal(vstd::laws_cmp::obeys_cmp_ord);
    reveal(vstd::laws_cmp::obeys_cmp_partial_ord);
    reveal(vstd::laws_cmp::obeys_partial_cmp_spec_properties);
    reveal(vstd::laws_eq::obeys_eq_spec_properties);
    assert(a.partial_cmp_spec(&c) == Some(a.cmp_spec(&c)));
    assert(c.partial_cmp_spec(&a) == Some(c.cmp_spec(&a)));
    assert(b.partial_cmp_spec(&a) == Some(b.cmp_spec(&a)));
    assert(c.partial_cmp_spec(&b) == Some(c.cmp_spec(&b)));
}

/// `>` is transitive, and no value is greater than itself.
pub proof fn lemma_gt_transitive<T: Ord>(a: T, b: T, c: T)
    requires
        total_order::<T>(),
    ensures
        gt(a, b) && gt(b, c) ==> gt(a, c),
        !gt(a, a),
{
    reveal(vstd::laws_cmp::obeys_partial_cmp_spec_properties);
    lemma_total(a, a);
}

/// The first index at which `row` takes its greatest value; 0 for an empty row.
pub open spec fn first_max<T: Ord>(row: Seq<T>) -> int
    decreases row.len(),
{
    if row.len() <= 1 {
        0
    } else {
        let j = first_max(row.drop_last());
        if gt(row.last(), row[j]) {
            row.len() - 1
        } else {
            j
        }
    }
}

/// `first_max` is an index of `row` whose value no element exceeds, and every
/// element before it is strictly smaller.
pub proof fn lemma_first_max<T: Ord>(row: Seq<T>)
    requires
        total_order::<T>(),
        row.len() > 0,
    ensures
        0 <= first_max(row) < row.len(),
        forall|k: int| 0 <= k < row.len() ==> le(#[trigger] row[k], row[first_max(row)]),
        forall|k: int| 0 <= k < first_max(row) ==> gt(row[first_max(row)], #[trigger] row[k]),
    decreases row.len(),
{
    if row.len() == 1 {
        lemma_total(row[0], row[0]);
    } else {
        let front = row.drop_last();
        let j = first_max(front);
        let x = row.last();
        lemma_first_max(front);
        lemma_total(x, row[j]);
        lemma_total(x, x);
        assert forall|k: int| 0 <= k < row.len() implies le(#[trigger] row[k], row[first_max(row)]) by {
            if k < row.len() - 1 {
                assert(row[k] == front[k]);
                if gt(x, row[j]) {
                    lemma_le_transitive(row[k], row[j], x);
                }
            }
        }
        assert forall|k: int| 0 <= k < first_max(row) implies gt(row[first_max(row)], #[trigger] row[k]) by {
            assert(row[k] == front[k]);
            if gt(x, row[j]) {
                lemma_total(x, row[k]);
                if le(x, row[k]) {
                    lemma_le_transitive(x, row[k], row[j]);
                }
            }
        }
    }
}

/// Extending a prefix of `row` by one element moves `first_max` to the new
/// element exactly when it is strictly greater.
pub proof fn lemma_first_max_step<T: Ord>(row: Seq<T>, k: int)
    requires
        total_order::<T>(),
        0 <= k < row.len(),
    ensures
        first_max(row.take(k + 1)) == if k > 0 && gt(row[k], row[first_max(row.take(k))]) {
            k
        } else {
            first_max(row.take(k))
        },
{
    if k > 0 {
        assert(row.take(k + 1).drop_last() =~= row.take(k));
        lemma_first_max(row.take(k));
    }
}

/// Whether `a` is strictly greater than `b`, by the `>` of `T`.
pub fn exceeds<T: Ord>(a: &T, b: &T) -> (r: bool)
    requires
        total_order::<T>(),
    ensures
        r == gt(*a, *b),
{
    proof {
        reveal(vstd::laws_cmp::obeys_cmp_partial_ord);
    }
    *a > *b
}

/// Whether `a` is at most `b`, by the `<=` of `T`.
pub fn at_most<T: Ord>(a: &T, b: &T) -> (r: bool)
    requires
        total_order::<T>(),
    ensures
        r == le(*a, *b),
{
    proof {
        reveal(vstd::laws_cmp::obeys_cmp_partial_ord);
    }
    *a <= *b
}

} // verus!
