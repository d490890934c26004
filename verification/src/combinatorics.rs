//! Facts about picks of items and about products of falling numbers.

use crate::adapters::combinations_of;
use vstd::prelude::*;

verus! {

/// Each pick of `k` items holds `k` items, all of them items of the
/// sequence, and none twice where the sequence holds none twice.
pub proof fn lemma_pick_is_selection<A>(items: Seq<A>, k: nat, j: int)
    requires
        0 <= j < combinations_of(items, k).len(),
    ensures
        combinations_of(items, k)[j].len() == k,
        forall|item: A| #[trigger]
            combinations_of(items, k)[j].contains(item) ==> items.contains(item),
        items.no_duplicates() ==> combinations_of(items, k)[j].no_duplicates(),
    decreases items.len(),
{
    let pick = combinations_of(items, k)[j];
    if k == 0 {
    } else if items.len() == 0 {
    } else {
        let rest = items.drop_first();
        let with_first = combinations_of(rest, (k - 1) as nat);
        let without = combinations_of(rest, k);
        if j < with_first.len() {
            lemma_pick_is_selection(rest, (k - 1) as nat, j);
            let tail = with_first[j];
            assert(pick == seq![items[0]] + tail);
            assert forall|item: A| pick.contains(item) implies items.contains(item) by {
                let i = choose|i: int| 0 <= i < pick.len() && pick[i] == item;
                if i == 0 {
                    assert(items[0] == item);
                } else {
                    assert(tail[i - 1] == item);
                    assert(tail.contains(item));
                    let at = choose|at: int| 0 <= at < rest.len() && rest[at] == item;
                    assert(items[at + 1] == item);
                }
            }
            if items.no_duplicates() {
                assert(rest.no_duplicates());
                assert forall|a: int, b: int| 0 <= a < pick.len() && 0 <= b < pick.len() && a
                    != b implies pick[a] != pick[b] by {
                    if a == 0 || b == 0 {
                        let other = if a == 0 {
                            b
                        } else {
                            a
                        };
                        assert(tail.contains(tail[other - 1]));
                        let at = choose|at: int|
                            0 <= at < rest.len() && rest[at] == tail[other - 1];
                        assert(items[at + 1] == tail[other - 1]);
                    } else {
                        assert(tail[a - 1] != tail[b - 1]);
                    }
                }
            }
        } else {
            lemma_pick_is_selection(rest, k, j - with_first.len());
            assert(pick == without[j - with_first.len()]);
            assert forall|item: A| pick.contains(item) implies items.contains(item) by {
                let at = choose|at: int| 0 <= at < rest.len() && rest[at] == item;
                assert(items[at + 1] == item);
            }
        }
    }
}

/// There is a pick of `k` items whenever there are at least `k` items.
pub proof fn lemma_picks_exist<A>(items: Seq<A>, k: nat)
    requires
        k <= items.len(),
    ensures
        combinations_of(items, k).len() >= 1,
    decreases items.len(),
{
    if k > 0 {
        lemma_picks_exist(items.drop_first(), (k - 1) as nat);
    }
}

/// Every choice of some of the items is one of the picks of that many
/// items.
pub proof fn lemma_every_choice_is_picked<A>(items: Seq<A>, chosen: Set<A>)
    requires
        chosen.finite(),
        forall|item: A| chosen.contains(item) ==> items.contains(item),
    ensures
        exists|j: int|
            0 <= j < combinations_of(items, chosen.len()).len() && (#[trigger] combinations_of(
                items,
                chosen.len(),
            )[j]).to_set() == chosen,
    decreases items.len(),
{
    let k = chosen.len();
    let picks = combinations_of(items, k);
    if k == 0 {
        chosen.lemma_len0_is_empty();
        assert(picks[0].to_set() =~= chosen);
    } else {
        let some = chosen.choose();
        assert(items.contains(some));
        let first = items[0];
        let rest = items.drop_first();
        let with_first = combinations_of(rest, (k - 1) as nat);
        if chosen.contains(first) {
            let others = chosen.remove(first);
            assert forall|item: A| others.contains(item) implies rest.contains(item) by {
                let at = choose|at: int| 0 <= at < items.len() && items[at] == item;
                assert(rest[at - 1] == item);
            }
            lemma_every_choice_is_picked(rest, others);
            let j = choose|j: int|
                0 <= j < with_first.len() && (#[trigger] with_first[j]).to_set() == others;
            let pick = seq![first] + with_first[j];
            assert(picks[j] == pick);
            assert forall|item: A| pick.to_set().contains(item) == chosen.contains(item) by {
                if chosen.contains(item) {
                    if item == first {
                        assert(pick[0] == item);
                    } else {
                        assert(with_first[j].to_set().contains(item));
                        let at = choose|at: int|
                            0 <= at < with_first[j].len() && with_first[j][at] == item;
                        assert(pick[at + 1] == item);
                    }
                }
                if pick.contains(item) {
                    let at = choose|at: int| 0 <= at < pick.len() && pick[at] == item;
                    if at > 0 {
                        assert(with_first[j][at - 1] == item);
                        assert(with_first[j].to_set().contains(item));
                    }
                }
            }
            assert(pick.to_set() =~= chosen);
        } else {
            assert forall|item: A| chosen.contains(item) implies rest.contains(item) by {
                let at = choose|at: int| 0 <= at < items.len() && items[at] == item;
                assert(rest[at - 1] == item);
            }
            lemma_every_choice_is_picked(rest, chosen);
            let without = combinations_of(rest, k);
            let j = choose|j: int|
                0 <= j < without.len() && (#[trigger] without[j]).to_set() == chosen;
            let first_part = with_first.map_values(|tail: Seq<A>| seq![items[0]] + tail);
            assert(picks[first_part.len() + j] == without[j]);
        }
    }
}

/// The number of ways to draw `k` of `n` things one after another:
/// `n * (n - 1) * ...` with `k` factors. It is 1 for no draw and 0 when `k`
/// is more than `n`.
pub open spec fn falling_factorial(n: nat, k: nat) -> nat
    decreases k,
{
    if k == 0 {
        1
    } else if n == 0 {
        0
    } else {
        n * falling_factorial((n - 1) as nat, (k - 1) as nat)
    }
}

/// More things cannot be drawn than there are.
pub proof fn lemma_falling_zero(n: nat, k: nat)
    requires
        k > n,
    ensures
        falling_factorial(n, k) == 0,
    decreases k,
{
    if n > 0 {
        lemma_falling_zero((n - 1) as nat, (k - 1) as nat);
        assert(n * 0 == 0);
    }
}

/// With the lowest factor fixed at `lowest`, a product that runs up to `n`
/// is at least the product that stops at `m`, for `m` below `n`.
pub proof fn lemma_falling_monotone(m: nat, n: nat, lowest: nat)
    requires
        1 <= lowest,
        lowest - 1 <= m <= n,
    ensures
        falling_factorial(m, (m + 1 - lowest) as nat) <= falling_factorial(
            n,
            (n + 1 - lowest) as nat,
        ),
    decreases n - m,
{
    if m < n {
        lemma_falling_monotone(m, (n - 1) as nat, lowest);
        let inner = falling_factorial((n - 1) as nat, (n - lowest) as nat);
        assert(inner <= n * inner) by (nonlinear_arith)
            requires
                n >= 1,
                inner >= 0,
        ;
    }
}

/// `base` multiplied by itself `exponent` times.
pub open spec fn power(base: nat, exponent: nat) -> nat
    decreases exponent,
{
    if exponent == 0 {
        1
    } else {
        base * power(base, (exponent - 1) as nat)
    }
}

/// A power of a number that is at least 1 does not shrink as the exponent
/// grows.
pub proof fn lemma_power_monotone(base: nat, low: nat, high: nat)
    requires
        1 <= base,
        low <= high,
    ensures
        1 <= power(base, low) <= power(base, high),
    decreases high,
{
    if low < high {
        lemma_power_monotone(base, low, (high - 1) as nat);
        let inner = power(base, (high - 1) as nat);
        assert(inner <= base * inner) by (nonlinear_arith)
            requires
                base >= 1,
                inner >= 0,
        ;
    } else if high > 0 {
        lemma_power_monotone(base, (low - 1) as nat, (high - 1) as nat);
        let inner = power(base, (high - 1) as nat);
        assert(1 <= base * inner) by (nonlinear_arith)
            requires
                base >= 1,
                inner >= 1,
        ;
    }
}

/// Drawing `k` of at most `limit` things one after another has at most
/// `limit` to the power `k` outcomes.
pub proof fn lemma_falling_le_power(n: nat, k: nat, limit: nat)
    requires
        n <= limit,
    ensures
        falling_factorial(n, k) <= power(limit, k),
    decreases k,
{
    if k > 0 && n > 0 {
        lemma_falling_le_power((n - 1) as nat, (k - 1) as nat, limit);
        let inner = falling_factorial((n - 1) as nat, (k - 1) as nat);
        let bound = power(limit, (k - 1) as nat);
        assert(n * inner <= limit * bound) by (nonlinear_arith)
            requires
                n <= limit,
                inner <= bound,
        ;
    }
}

/// A draw of at most five of at most 52 cards has fewer outcomes than fit
/// in 32 bits.
pub proof fn lemma_draw_from_deck_fits(n: nat, k: nat)
    requires
        n <= 52,
        k <= 5,
    ensures
        falling_factorial(n, k) <= 380_204_032,
{
    lemma_falling_le_power(n, k, 52);
    lemma_power_monotone(52, k, 5);
    assert(power(52, 5) == 380_204_032) by {
        reveal_with_fuel(power, 6);
    }
}

/// Where the item at position `k` of a product of `rows` by `cols` items
/// comes from: a row below `rows` and a column below `cols`.
pub proof fn lemma_product_index(k: int, rows: int, cols: int)
    requires
        0 <= k < rows * cols,
        0 <= rows,
        0 <= cols,
    ensures
        cols > 0,
        0 <= k / cols < rows,
        0 <= k % cols < cols,
{
    assert(cols > 0) by (nonlinear_arith)
        requires
            0 <= k < rows * cols,
            0 <= cols,
    ;
    vstd::arithmetic::div_mod::lemma_div_pos_is_pos(k, cols);
    vstd::arithmetic::div_mod::lemma_mod_pos_bound(k, cols);
    assert(k < cols * rows) by (nonlinear_arith)
        requires
            k < rows * cols,
    ;
    vstd::arithmetic::div_mod::lemma_multiply_divide_lt(k, cols, rows);
}

} // verus!
