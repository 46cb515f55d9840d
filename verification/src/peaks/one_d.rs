//! Peaks of a sequence.

use vstd::prelude::*;
use crate::order::{total_order, le, gt, exceeds, at_most, lemma_total};

verus! {

/// Index `i` is a peak of `s`: it is in range and neither neighbour that
/// exists exceeds `s[i]`.
pub open spec fn is_peak<T: Ord>(s: Seq<T>, i: int) -> bool {
    &&& 0 <= i < s.len()
    &&& (i > 0 ==> le(s[i - 1], s[i]))
    &&& (i < s.len() - 1 ==> le(s[i + 1], s[i]))
}

/// The index that bisection of the window `[lo, hi]` ends at: from the
/// midpoint it moves to the left half if the left neighbour inside the window
/// is greater, else to the right half if the right neighbour inside the window
/// is greater, and else stays.
pub open spec fn bisect<T: Ord>(s: Seq<T>, lo: int, hi: int) -> int
    decreases hi - lo,
{
    let mid = lo + (hi - lo) / 2;
    if lo >= hi {
        lo
    } else if mid > lo && gt(s[mid - 1], s[mid]) {
        bisect(s, lo, mid - 1)
    } else if mid < hi && gt(s[mid + 1], s[mid]) {
        bisect(s, mid + 1, hi)
    } else {
        mid
    }
}

/// The window `[lo, hi]` of `s` is closed: the element just outside either end,
/// where there is one, does not exceed the element at that end.
pub open spec fn closed_window<T: Ord>(s: Seq<T>, lo: int, hi: int) -> bool {
    &&& 0 <= lo <= hi < s.len()
    &&& (lo > 0 ==> le(s[lo - 1], s[lo]))
    &&& (hi < s.len() - 1 ==> le(s[hi + 1], s[hi]))
}

/// Bisection of a closed window ends at a peak inside it.
pub proof fn lemma_bisect_peak<T: Ord>(s: Seq<T>, lo: int, hi: int)
    requires
        total_order::<T>(),
        closed_window(s, lo, hi),
    ensures
        lo <= bisect(s, lo, hi) <= hi,
        is_peak(s, bisect(s, lo, hi)),
    decreases hi - lo,
{
    let mid = lo + (hi - lo) / 2;
    if lo < hi {
        if mid > lo {
            lemma_total(s[mid - 1], s[mid]);
        }
        lemma_total(s[mid + 1], s[mid]);
        if mid > lo && gt(s[mid - 1], s[mid]) {
            lemma_bisect_peak(s, lo, mid - 1);
        } else if gt(s[mid + 1], s[mid]) {
            lemma_bisect_peak(s, mid + 1, hi);
        }
    }
}

/// Every non-empty sequence has a peak.
pub proof fn lemma_peak_exists<T: Ord>(s: Seq<T>)
    requires
        total_order::<T>(),
        s.len() > 0,
    ensures
        exists|i: int| is_peak(s, i),
{
    lemma_bisect_peak(s, 0, s.len() - 1);
    assert(is_peak(s, bisect(s, 0, s.len() - 1)));
}

/// Finds a peak by bisection, in a logarithmic number of comparisons.
///
/// Returns `None` exactly for the empty sequence. Otherwise the result is the
/// peak that bisection of the whole range ends at.
pub fn find_peak<T: Ord + Clone>(input: &[T]) -> (r: Option<usize>)
    requires
        total_order::<T>(),
    ensures
        r is None <==> input@.len() == 0,
        r matches Some(i) ==> is_peak(input@, i as int),
        r matches Some(i) ==> i == bisect(input@, 0, input@.len() - 1),
{
    let n: usize = input.len();
    if n == 0 {
        return None;
    }
    let mut min: usize = 0;
    let mut max: usize = n - 1;
    loop
        invariant
            total_order::<T>(),
            n == input@.len(),
            closed_window(input@, min as int, max as int),
            bisect(input@, min as int, max as int) == bisect(input@, 0, n - 1),
        decreases max - min,
    {
        let mid: usize = min + (max - min) / 2;
        proof {
            if mid > min {
                lemma_total(input@[mid - 1], input@[mid as int]);
            }
            if mid < max {
                lemma_total(input@[mid + 1], input@[mid as int]);
            }
        }
        if mid > min && exceeds(&input[mid - 1], &input[mid]) {
            max = mid - 1;
        } else if mid < max && exceeds(&input[mid + 1], &input[mid]) {
            min = mid + 1;
        } else {
            proof {
                lemma_bisect_peak(input@, min as int, max as int);
            }
            return Some(mid);
        }
    }
}

/// Finds a peak by a scan from the left.
///
/// Returns `None` exactly for the empty sequence. Otherwise the result is the
/// first peak.
pub fn find_peak_naive<T: Ord + Clone>(input: &[T]) -> (r: Option<usize>)
    requires
        total_order::<T>(),
    ensures
        r is None <==> input@.len() == 0,
        r matches Some(i) ==> is_peak(input@, i as int),
        r matches Some(i) ==> forall|k: int| 0 <= k < i ==> !is_peak(input@, k),
{
    let n: usize = input.len();
    let mut i: usize = 0;
    while i < n
        invariant
            total_order::<T>(),
            n == input@.len(),
            i <= n,
            i == n ==> n == 0,
            i > 0 ==> !le(input@[i as int], input@[i - 1]),
            forall|k: int| 0 <= k < i ==> !is_peak(input@, k),
        decreases n - i,
    {
        let x = &input[i];
        proof {
            if i > 0 {
                lemma_total(input@[i as int], input@[i - 1]);
            }
        }
        if (i == 0 || at_most(&input[i - 1], x)) && (i == n - 1 || at_most(&input[i + 1], x)) {
            return Some(i);
        }
        i += 1;
    }
    None
}

} // verus!
