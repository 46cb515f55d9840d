//! Change for an amount from a list of coin denominations.
//!
//! `make_change` is greedy: it takes the denominations in the order given and
//! uses each as often as it fits. `ways_to_make_change` lists every way.

use vstd::prelude::*;
use vstd::slice::slice_subrange;

verus! {

/// Every denomination is positive.
pub open spec fn positive(coins: Seq<i64>) -> bool {
    forall|i: int| 0 <= i < coins.len() ==> coins[i] > 0
}

/// The sum of the coins of `way`.
pub open spec fn total(way: Seq<i64>) -> int
    decreases way.len(),
{
    if way.len() == 0 {
        0
    } else {
        way.first() + total(way.drop_first())
    }
}

/// The greedy change for a positive `amount`: the first denomination is used
/// while it does not exceed what is left, then the next one, and so on. Empty
/// where this does not end at exactly nothing left.
pub open spec fn greedy(amount: int, coins: Seq<i64>) -> Seq<i64>
    decreases coins.len(), amount,
    when amount > 0 && positive(coins)
{
    if coins.len() == 0 {
        Seq::empty()
    } else if amount < coins.first() {
        greedy(amount, coins.drop_first())
    } else if amount > coins.first() {
        let rest = greedy(amount - coins.first(), coins);
        if rest.len() == 0 {
            rest
        } else {
            seq![coins.first()] + rest
        }
    } else {
        seq![coins.first()]
    }
}

/// Greedy change, where there is any, sums to the amount and holds only
/// denominations of the list.
pub proof fn lemma_greedy_sound(amount: int, coins: Seq<i64>)
    requires
        amount > 0,
        positive(coins),
    ensures
        greedy(amount, coins).len() > 0 ==> total(greedy(amount, coins)) == amount,
        forall|i: int|
            0 <= i < greedy(amount, coins).len() ==> coins.contains(
                #[trigger] greedy(amount, coins)[i],
            ),
    decreases coins.len(), amount,
{
    if coins.len() > 0 {
        let x = coins.first();
        if amount < x {
            lemma_greedy_sound(amount, coins.drop_first());
            assert forall|i: int| 0 <= i < greedy(amount, coins).len() implies coins.contains(
                #[trigger] greedy(amount, coins)[i],
            ) by {
                let c = greedy(amount, coins)[i];
                let k = choose|k: int| 0 <= k < coins.drop_first().len() && coins.drop_first()[k] == c;
                assert(coins[k + 1] == c);
            }
        } else if amount > x {
            let rest = greedy(amount - x, coins);
            lemma_greedy_sound(amount - x, coins);
            if rest.len() > 0 {
                assert((seq![x] + rest).drop_first() =~= rest);
                assert(total(seq![x] + rest) == x + total(rest));
                assert forall|i: int| 0 <= i < greedy(amount, coins).len() implies coins.contains(
                    #[trigger] greedy(amount, coins)[i],
                ) by {
                    if i == 0 {
                        assert(coins[0] == x);
                    } else {
                        assert(greedy(amount, coins)[i] == rest[i - 1]);
                    }
                }
            }
        } else {
            assert(seq![x].drop_first() =~= Seq::<i64>::empty());
            assert(total(Seq::<i64>::empty()) == 0);
            assert(total(seq![x]) == x);
            assert(coins[0] == x);
        }
    }
}

/// Reverses `v` in place.
fn reverse(v: &mut Vec<i64>)
    ensures
        final(v)@ == old(v)@.reverse(),
{
    let n: usize = v.len();
    let mut i: usize = 0;
    while i < n / 2
        invariant
            n == v@.len(),
            n == old(v)@.len(),
            i <= n / 2,
            forall|k: int| 0 <= k < i ==> v@[k] == old(v)@[n - 1 - k],
            forall|k: int| n - i <= k < n ==> v@[k] == old(v)@[n - 1 - k],
            forall|k: int| i <= k < n - i ==> v@[k] == old(v)@[k],
        decreases n / 2 - i,
    {
        let a: i64 = v[i];
        let b: i64 = v[n - 1 - i];
        v[i] = b;
        v[n - 1 - i] = a;
        i += 1;
    }
    assert(v@ =~= old(v)@.reverse());
}

/// Greedy change with the coins in the order of last use first.
fn make_change_impl(amount: i64, coins: &[i64]) -> (change: Vec<i64>)
    requires
        amount > 0,
        positive(coins@),
    ensures
        change@ == greedy(amount as int, coins@).reverse(),
    decreases coins@.len(), amount,
{
    if coins.is_empty() {
        assert(Seq::<i64>::empty().reverse() =~= Seq::<i64>::empty());
        Vec::new()
    } else {
        let x: i64 = coins[0];
        let r: i64 = amount - x;
        if r < 0 {
            make_change_impl(amount, slice_subrange(coins, 1, coins.len()))
        } else if r > 0 {
            let mut change = make_change_impl(r, coins);
            if !change.is_empty() {
                let ghost rest = greedy(r as int, coins@);
                assert((seq![x] + rest).reverse() =~= rest.reverse().push(x));
                change.push(x);
            }
            change
        } else {
            assert(seq![x].reverse() =~= seq![x]);
            vec![x]
        }
    }
}

/// Greedy change for `amount` from `coins`, in the order of the list.
///
/// Empty where the amount is not positive or the greedy choice leaves a rest
/// that no denomination fits. A result that is not empty sums to the amount.
pub fn make_change(amount: i64, coins: &[i64]) -> (change: Vec<i64>)
    requires
        amount > 0 ==> positive(coins@),
    ensures
        amount <= 0 ==> change@.len() == 0,
        amount > 0 ==> change@ == greedy(amount as int, coins@),
        change@.len() > 0 ==> total(change@) == amount,
        forall|i: int| 0 <= i < change@.len() ==> coins@.contains(#[trigger] change@[i]),
{
    if amount > 0 {
        let mut change = make_change_impl(amount, coins);
        reverse(&mut change);
        proof {
            let g = greedy(amount as int, coins@);
            assert(g.reverse().reverse() =~= g);
            lemma_greedy_sound(amount as int, coins@);
        }
        change
    } else {
        Vec::new()
    }
}

/// The ways of `ways`, each with `x` put in front.
pub open spec fn prepend_each(x: i64, ways: Seq<Seq<i64>>) -> Seq<Seq<i64>> {
    Seq::new(ways.len(), |k: int| seq![x] + ways[k])
}

/// Every way to pay a positive `amount`, each way with its coins in the order
/// of the list: first the ways that use the first denomination, in the order
/// of the ways for what is left, then the ways that do not use it, last first.
pub open spec fn all_ways(amount: int, coins: Seq<i64>) -> Seq<Seq<i64>>
    decreases coins.len(), amount,
    when amount > 0 && positive(coins)
{
    if coins.len() == 0 {
        Seq::empty()
    } else if amount < coins.first() {
        all_ways(amount, coins.drop_first())
    } else {
        let with_first = if amount > coins.first() {
            prepend_each(coins.first(), all_ways(amount - coins.first(), coins))
        } else {
            seq![seq![coins.first()]]
        };
        with_first + all_ways(amount, coins.drop_first()).reverse()
    }
}

/// `way` sums to `amount` and holds only denominations of `coins`.
pub open spec fn pays(way: Seq<i64>, amount: int, coins: Seq<i64>) -> bool {
    &&& total(way) == amount
    &&& forall|i: int| 0 <= i < way.len() ==> coins.contains(#[trigger] way[i])
}

/// Every listed way pays the amount with denominations of the list.
pub proof fn lemma_all_ways_sound(amount: int, coins: Seq<i64>)
    requires
        amount > 0,
        positive(coins),
    ensures
        forall|k: int|
            0 <= k < all_ways(amount, coins).len() ==> pays(
                #[trigger] all_ways(amount, coins)[k],
                amount,
                coins,
            ),
    decreases coins.len(), amount,
{
    if coins.len() > 0 {
        let x = coins.first();
        let tail = coins.drop_first();
        let without = all_ways(amount, tail);
        lemma_all_ways_sound(amount, tail);
        assert forall|w: Seq<i64>| pays(w, amount, tail) implies pays(w, amount, coins) by {
            assert forall|i: int| 0 <= i < w.len() implies coins.contains(#[trigger] w[i]) by {
                let k = choose|k: int| 0 <= k < tail.len() && tail[k] == w[i];
                assert(coins[k + 1] == w[i]);
            }
        }
        if amount >= x {
            assert(coins[0] == x);
            let with_first = if amount > x {
                prepend_each(x, all_ways(amount - x, coins))
            } else {
                seq![seq![x]]
            };
            if amount > x {
                let sub = all_ways(amount - x, coins);
                lemma_all_ways_sound(amount - x, coins);
                assert forall|k: int| 0 <= k < with_first.len() implies pays(
                    #[trigger] with_first[k],
                    amount,
                    coins,
                ) by {
                    let w = sub[k];
                    assert(pays(w, amount - x, coins));
                    assert((seq![x] + w).drop_first() =~= w);
                    assert(total(seq![x] + w) == x + total(w));
                    assert forall|i: int| 0 <= i < with_first[k].len() implies coins.contains(
                        #[trigger] with_first[k][i],
                    ) by {
                        if i > 0 {
                            assert(with_first[k][i] == w[i - 1]);
                        }
                    }
                }
            } else {
                assert(seq![x].drop_first() =~= Seq::<i64>::empty());
                assert(total(Seq::<i64>::empty()) == 0);
                assert(total(seq![x]) == x);
            }
            assert forall|k: int| 0 <= k < all_ways(amount, coins).len() implies pays(
                #[trigger] all_ways(amount, coins)[k],
                amount,
                coins,
            ) by {
                if k >= with_first.len() {
                    let q = without.len() - 1 - (k - with_first.len());
                    assert(all_ways(amount, coins)[k] == without[q]);
                } else {
                    assert(all_ways(amount, coins)[k] == with_first[k]);
                }
            }
        }
    }
}

/// `picks` are indices into `coins`, none smaller than the one before it.
pub open spec fn ordered_picks(picks: Seq<int>, coins: Seq<i64>) -> bool {
    &&& forall|k: int| 0 <= k < picks.len() ==> 0 <= #[trigger] picks[k] < coins.len()
    &&& forall|k: int, l: int| 0 <= k <= l < picks.len() ==> picks[k] <= picks[l]
}

/// The coins that `picks` selects from `coins`, in the order of `picks`.
pub open spec fn picked(picks: Seq<int>, coins: Seq<i64>) -> Seq<i64> {
    Seq::new(picks.len(), |k: int| coins[picks[k]])
}

/// Positive coins sum to a positive total, and no coins to zero.
pub proof fn lemma_total_positive(way: Seq<i64>)
    requires
        positive(way),
    ensures
        total(way) >= 0,
        way.len() > 0 ==> total(way) > 0,
    decreases way.len(),
{
    if way.len() > 0 {
        lemma_total_positive(way.drop_first());
    }
}

/// The list of ways is complete: whichever denominations one picks, in the
/// order of the list and with repetition, if they sum to the amount then they
/// are one of the listed ways.
pub proof fn lemma_all_ways_complete(amount: int, coins: Seq<i64>, picks: Seq<int>)
    requires
        amount > 0,
        positive(coins),
        ordered_picks(picks, coins),
        total(picked(picks, coins)) == amount,
    ensures
        all_ways(amount, coins).contains(picked(picks, coins)),
    decreases coins.len(), amount,
{
    let way = picked(picks, coins);
    let x = coins.first();
    let tail = coins.drop_first();
    let without = all_ways(amount, tail);
    if picks[0] == 0 {
        let rest_picks = picks.drop_first();
        let rest = picked(rest_picks, coins);
        assert(way.drop_first() =~= rest);
        assert(way.first() == x);
        lemma_total_positive(rest);
        if rest.len() == 0 {
            assert(way =~= seq![x]);
            assert(all_ways(amount, coins)[0] == way);
        } else {
            lemma_all_ways_complete(amount - x, coins, rest_picks);
            let sub = all_ways(amount - x, coins);
            let k = choose|k: int| 0 <= k < sub.len() && sub[k] == rest;
            assert(prepend_each(x, sub)[k] =~= way);
            assert(all_ways(amount, coins)[k] == way);
        }
    } else {
        let shifted = Seq::new(picks.len(), |k: int| picks[k] - 1);
        assert forall|k: int| 0 <= k < picks.len() implies picks[k] >= 1 by {
            assert(picks[0] <= picks[k]);
        }
        assert(ordered_picks(shifted, tail));
        assert(picked(shifted, tail) =~= way);
        lemma_all_ways_complete(amount, tail, shifted);
        let k = choose|k: int| 0 <= k < without.len() && without[k] == way;
        if amount >= x {
            let with_first = if amount > x {
                prepend_each(x, all_ways(amount - x, coins))
            } else {
                seq![seq![x]]
            };
            let at = with_first.len() + (without.len() - 1 - k);
            assert(all_ways(amount, coins)[at] == way);
        }
    }
}

/// Where no denomination occurs twice in the list, no way is listed twice.
pub proof fn lemma_all_ways_distinct(amount: int, coins: Seq<i64>)
    requires
        amount > 0,
        positive(coins),
        coins.no_duplicates(),
    ensures
        all_ways(amount, coins).no_duplicates(),
    decreases coins.len(), amount,
{
    if coins.len() > 0 {
        let x = coins.first();
        let tail = coins.drop_first();
        let without = all_ways(amount, tail);
        assert(tail.no_duplicates()) by {
            assert forall|i: int, j: int| 0 <= i < tail.len() && 0 <= j < tail.len() && i != j implies tail[i]
                != tail[j] by {
                assert(tail[i] == coins[i + 1] && tail[j] == coins[j + 1]);
            }
        }
        lemma_all_ways_distinct(amount, tail);
        lemma_all_ways_sound(amount, tail);
        if amount >= x {
            let sub = all_ways(amount - x, coins);
            let with_first = if amount > x {
                prepend_each(x, sub)
            } else {
                seq![seq![x]]
            };
            if amount > x {
                lemma_all_ways_distinct(amount - x, coins);
            }
            let ways = all_ways(amount, coins);
            let n = with_first.len();
            assert forall|i: int, j: int| 0 <= i < j < ways.len() implies ways[i] != ways[j] by {
                if j < n {
                    // both begin with the first denomination: what follows differs
                    assert((seq![x] + sub[i]).drop_first() =~= sub[i]);
                    assert((seq![x] + sub[j]).drop_first() =~= sub[j]);
                } else if i >= n {
                    assert(ways[i] == without[without.len() - 1 - (i - n)]);
                    assert(ways[j] == without[without.len() - 1 - (j - n)]);
                } else {
                    // one begins with the first denomination, the other with a later one
                    let w = without[without.len() - 1 - (j - n)];
                    assert(ways[j] == w);
                    assert(ways[i] == with_first[i]);
                    assert(with_first[i][0] == x);
                    assert(pays(w, amount, tail));
                    assert(w.len() > 0);
                    let m = choose|m: int| 0 <= m < tail.len() && tail[m] == w[0];
                    assert(coins[m + 1] == w[0]);
                    assert(coins[0] == x);
                }
            }
        }
    }
}

/// The contents of each vector of `ways`.
pub open spec fn views(ways: Seq<Vec<i64>>) -> Seq<Seq<i64>> {
    Seq::new(ways.len(), |k: int| ways[k]@)
}

/// The ways of `ways`, each reversed.
pub open spec fn each_reversed(ways: Seq<Seq<i64>>) -> Seq<Seq<i64>> {
    Seq::new(ways.len(), |k: int| ways[k].reverse())
}

/// Every way for `amount`, each with the coins in the order of last use first.
fn ways_to_make_change_impl(amount: i64, coins: &[i64]) -> (ways: Vec<Vec<i64>>)
    requires
        amount > 0,
        positive(coins@),
    ensures
        views(ways@) == each_reversed(all_ways(amount as int, coins@)),
    decreases coins@.len(), amount,
{
    if coins.is_empty() {
        let ways: Vec<Vec<i64>> = Vec::new();
        assert(views(ways@) =~= each_reversed(Seq::empty()));
        ways
    } else {
        let x: i64 = coins[0];
        let r: i64 = amount - x;
        let tail = slice_subrange(coins, 1, coins.len());
        if r < 0 {
            ways_to_make_change_impl(amount, tail)
        } else {
            let ghost with_first = if r > 0 {
                prepend_each(x, all_ways(r as int, coins@))
            } else {
                seq![seq![x]]
            };
            let ghost without = all_ways(amount as int, tail@);
            let mut ways: Vec<Vec<i64>> = if r > 0 {
                let sub = ways_to_make_change_impl(r, coins);
                let ghost sub_ways = all_ways(r as int, coins@);
                let mut tmp: Vec<Vec<i64>> = Vec::new();
                assert(views(sub@).len() == sub_ways.len());
                for way in it: sub
                    invariant
                        it.seq() == sub@,
                        sub@.len() == sub_ways.len(),
                        views(sub@) == each_reversed(sub_ways),
                        tmp@.len() == it.index(),
                        forall|k: int|
                            0 <= k < tmp@.len() ==> (#[trigger] tmp@[k])@ == sub_ways[k].reverse().push(x),
                {
                    let ghost k = it.index();
                    assert(way@ == views(sub@)[k]);
                    let mut way = way;
                    way.push(x);
                    tmp.push(way);
                }
                assert(views(tmp@) =~= each_reversed(with_first)) by {
                    assert(views(sub@).len() == sub@.len());
                    assert forall|k: int| 0 <= k < tmp@.len() implies views(tmp@)[k]
                        == each_reversed(with_first)[k] by {
                        assert((seq![x] + sub_ways[k]).reverse() =~= sub_ways[k].reverse().push(x));
                    }
                }
                tmp
            } else {
                assert(seq![x].reverse() =~= seq![x]);
                let way: Vec<i64> = vec![x];
                assert(way@ =~= seq![x]);
                let one: Vec<Vec<i64>> = vec![way];
                assert(one@[0] == way);
                assert(views(one@) =~= each_reversed(with_first));
                one
            };
            let mut tmp = ways_to_make_change_impl(amount, tail);
            let ghost n = with_first.len();
            assert(views(tmp@).len() == without.len());
            assert(views(ways@).len() == n);
            assert(views(tmp@) =~= each_reversed(without).take(tmp@.len() as int));
            assert forall|k: int| 0 <= k < n implies (#[trigger] ways@[k])@ == with_first[k].reverse() by {
                assert(views(ways@)[k] == each_reversed(with_first)[k]);
            }
            loop
                invariant
                    n == with_first.len(),
                    tmp@.len() <= without.len(),
                    views(tmp@) == each_reversed(without).take(tmp@.len() as int),
                    ways@.len() == n + without.len() - tmp@.len(),
                    forall|k: int| 0 <= k < n ==> (#[trigger] ways@[k])@ == with_first[k].reverse(),
                    forall|k: int|
                        n <= k < ways@.len() ==> (#[trigger] ways@[k])@ == without[without.len() - 1 - (k
                            - n)].reverse(),
                    amount > 0,
                    positive(coins@),
                    coins@.len() > 0,
                    amount >= coins@.first(),
                    with_first == if amount > coins@.first() {
                        prepend_each(coins@.first(), all_ways(amount - coins@.first(), coins@))
                    } else {
                        seq![seq![coins@.first()]]
                    },
                    without == all_ways(amount as int, coins@.drop_first()),
                decreases tmp@.len(),
            {
                let ghost before = tmp@;
                match tmp.pop() {
                    None => {
                        assert(views(ways@) =~= each_reversed(all_ways(amount as int, coins@)));
                        return ways;
                    },
                    Some(way) => {
                        assert(way@ == views(before)[before.len() - 1]);
                        assert(views(tmp@) =~= views(before).take(tmp@.len() as int));
                        ways.push(way);
                    },
                }
            }
        }
    }
}

/// Every way to pay `amount` with denominations of `coins`, each way with its
/// coins in the order of the list. Empty where the amount is not positive.
pub fn ways_to_make_change(amount: i64, coins: &[i64]) -> (ways: Vec<Vec<i64>>)
    requires
        amount > 0 ==> positive(coins@),
    ensures
        amount <= 0 ==> ways@.len() == 0,
        amount > 0 ==> views(ways@) == all_ways(amount as int, coins@),
        forall|k: int| 0 <= k < ways@.len() ==> pays((#[trigger] ways@[k])@, amount as int, coins@),
{
    if amount > 0 {
        let ghost expected = all_ways(amount as int, coins@);
        let mut ways: Vec<Vec<i64>> = Vec::new();
        let sub = ways_to_make_change_impl(amount, coins);
        assert(views(sub@).len() == expected.len());
        for way in it: sub
            invariant
                it.seq() == sub@,
                sub@.len() == expected.len(),
                views(sub@) == each_reversed(expected),
                ways@.len() == it.index(),
                forall|k: int| 0 <= k < ways@.len() ==> (#[trigger] ways@[k])@ == expected[k],
        {
            let ghost k = it.index();
            assert(way@ == views(sub@)[k]);
            assert(expected[k].reverse().reverse() =~= expected[k]);
            let mut way = way;
            reverse(&mut way);
            ways.push(way);
        }
        proof {
            assert(views(sub@).len() == sub@.len());
            assert(views(ways@) =~= expected);
            lemma_all_ways_sound(amount as int, coins@);
        }
        ways
    } else {
        Vec::new()
    }
}

} // verus!
