//! The further cards that a hand needs to satisfy a value: what they are,
//! how many they are, and the facts about them that the rest of the library
//! builds on.

use crate::adapters::combinations_of;
use crate::adapters::product;
use crate::card::Card;
use crate::card::Rank;
use crate::card::Suit;
use crate::poker::held_among_first;
use crate::poker::held_of_rank;
use crate::poker::holds;
use crate::poker::present;
use crate::poker::HandValue;
use vstd::prelude::*;

verus! {

/// The test that a card does not stand in `hand`.
pub open spec fn absent_from(hand: Seq<Card>) -> spec_fn(Card) -> bool {
    |card: Card| !hand.contains(card)
}

/// The cards of `rank` that do not stand in `hand`, in the order of
/// `Card::all_with_rank`.
pub open spec fn missing_of_rank(hand: Seq<Card>, rank: Rank) -> Seq<Card> {
    Card::all_with_rank(rank).filter(absent_from(hand))
}

/// The smallest sets of further cards of `rank` with which `hand` holds at
/// least `size` cards of that rank: every way to pick as many of the
/// missing cards as the hand is short of. There is none when the hand
/// already holds that many, and none when no hand can: a rank has four
/// cards.
pub open spec fn needed_for_rank(hand: Seq<Card>, size: nat, rank: Rank) -> Seq<Seq<Card>> {
    let held = held_of_rank(hand, rank);
    if held >= size || size > 4 {
        Seq::empty()
    } else {
        combinations_of(missing_of_rank(hand, rank), (size - held) as nat)
    }
}

/// The ways to bring what `hand` holds of `rank` up to `size`, for a `size`
/// of at most four: the one way that adds nothing where the hand holds
/// enough, else the sets of `needed_for_rank`.
pub open spec fn options_for_rank(hand: Seq<Card>, size: nat, rank: Rank) -> Seq<Seq<Card>> {
    if held_of_rank(hand, rank) >= size {
        seq![Seq::<Card>::empty()]
    } else {
        needed_for_rank(hand, size, rank)
    }
}

/// The union of two sets of cards given as a pair.
pub open spec fn union_of() -> spec_fn((Seq<Card>, Seq<Card>)) -> Seq<Card> {
    |p: (Seq<Card>, Seq<Card>)| p.0 + p.1
}

/// Every way to take one set of `first` together with one set of `second`,
/// in the order of `product`.
pub open spec fn joined(first: Seq<Seq<Card>>, second: Seq<Seq<Card>>) -> Seq<Seq<Card>> {
    product(first, second).map_values(union_of())
}

/// The ways to bring `hand` to hold a card of each of the `n` ranks whose
/// numbers start at `low`.
pub open spec fn run_options(hand: Seq<Card>, low: int, n: nat) -> Seq<Seq<Card>>
    decreases n,
{
    if n == 0 {
        seq![Seq::<Card>::empty()]
    } else {
        joined(
            run_options(hand, low, (n - 1) as nat),
            options_for_rank(hand, 1, Rank::with_value(low + n - 1)),
        )
    }
}

/// The ways to complete `hand` to `value` with as few further cards as
/// possible, where one of them may be to add nothing. Each rank that the
/// value names is completed on its own from the cards of that rank that
/// the hand lacks, and the ways for the single ranks are joined. A straight
/// that ends below `Six` has no way.
pub open spec fn options(hand: Seq<Card>, value: HandValue) -> Seq<Seq<Card>> {
    match value {
        HandValue::HighCard(rank) => options_for_rank(hand, 1, rank),
        HandValue::OnePair(rank) => options_for_rank(hand, 2, rank),
        HandValue::TwoPair(two_pair) => joined(
            options_for_rank(hand, 2, two_pair.top()),
            options_for_rank(hand, 2, two_pair.bottom()),
        ),
        HandValue::ThreeOfAKind(rank) => options_for_rank(hand, 3, rank),
        HandValue::Straight(top) => if top.value() >= 6 {
            run_options(hand, top.value() - 4, 5)
        } else {
            Seq::empty()
        },
        HandValue::FullHouse(full_house) => joined(
            options_for_rank(hand, 3, full_house.triple_rank()),
            options_for_rank(hand, 2, full_house.pair_rank()),
        ),
        HandValue::FourOfAKind(rank) => options_for_rank(hand, 4, rank),
    }
}

/// The smallest sets of further cards with which `hand` satisfies `value`.
/// The list is empty when the hand satisfies the value as it is, and when
/// no cards can make it do so.
pub open spec fn needed_sets(hand: Seq<Card>, value: HandValue) -> Seq<Seq<Card>> {
    if holds(hand, value) {
        Seq::empty()
    } else {
        options(hand, value)
    }
}

/// How many cards of `rank` the hand lacks to hold `size` of them.
pub open spec fn short_of(hand: Seq<Card>, size: nat, rank: Rank) -> nat {
    let held = held_of_rank(hand, rank);
    if held >= size {
        0
    } else {
        (size - held) as nat
    }
}

/// Of the `n` ranks whose numbers start at `low`, how many the hand holds
/// no card of.
pub open spec fn run_shortfall(hand: Seq<Card>, low: int, n: nat) -> nat
    decreases n,
{
    if n == 0 {
        0
    } else {
        run_shortfall(hand, low, (n - 1) as nat) + short_of(
            hand,
            1,
            Rank::with_value(low + n - 1),
        )
    }
}

/// How many cards the hand lacks to satisfy `value`: the size of each set
/// of `options`.
pub open spec fn shortfall(hand: Seq<Card>, value: HandValue) -> nat {
    match value {
        HandValue::HighCard(rank) => short_of(hand, 1, rank),
        HandValue::OnePair(rank) => short_of(hand, 2, rank),
        HandValue::TwoPair(two_pair) => short_of(hand, 2, two_pair.top()) + short_of(
            hand,
            2,
            two_pair.bottom(),
        ),
        HandValue::ThreeOfAKind(rank) => short_of(hand, 3, rank),
        HandValue::Straight(top) => run_shortfall(hand, top.value() - 4, 5),
        HandValue::FullHouse(full_house) => short_of(hand, 3, full_house.triple_rank()) + short_of(
            hand,
            2,
            full_house.pair_rank(),
        ),
        HandValue::FourOfAKind(rank) => short_of(hand, 4, rank),
    }
}

/// Each way to bring a rank up to `size` adds exactly the cards that the
/// hand is short of.
pub proof fn lemma_rank_option_size(hand: Seq<Card>, size: nat, rank: Rank, i: int)
    requires
        0 <= i < options_for_rank(hand, size, rank).len(),
    ensures
        options_for_rank(hand, size, rank)[i].len() == short_of(hand, size, rank),
{
    let held = held_of_rank(hand, rank);
    if held < size {
        crate::combinatorics::lemma_pick_is_selection(
            missing_of_rank(hand, rank),
            (size - held) as nat,
            i,
        );
    }
}

/// What stands at a place of `joined`: the set of `first` for the row,
/// followed by the set of `second` for the column.
pub proof fn lemma_joined(first: Seq<Seq<Card>>, second: Seq<Seq<Card>>, k: int)
    requires
        0 <= k < joined(first, second).len(),
    ensures
        joined(first, second).len() == first.len() * second.len(),
        second.len() > 0,
        0 <= k / (second.len() as int) < first.len(),
        0 <= k % (second.len() as int) < second.len(),
        joined(first, second)[k] == first[k / (second.len() as int)] + second[k % (
        second.len() as int)],
{
    crate::combinatorics::lemma_product_index(k, first.len() as int, second.len() as int);
}

/// Each way to complete a run of ranks adds one card for each rank of the
/// run of which the hand holds none.
pub proof fn lemma_run_option_size(hand: Seq<Card>, low: int, n: nat, i: int)
    requires
        0 <= i < run_options(hand, low, n).len(),
    ensures
        run_options(hand, low, n)[i].len() == run_shortfall(hand, low, n),
        run_shortfall(hand, low, n) <= n,
    decreases n,
{
    if n > 0 {
        let before = run_options(hand, low, (n - 1) as nat);
        let rank = Rank::with_value(low + n - 1);
        let last = options_for_rank(hand, 1, rank);
        lemma_joined(before, last, i);
        lemma_run_option_size(hand, low, (n - 1) as nat, i / (last.len() as int));
        lemma_rank_option_size(hand, 1, rank, i % (last.len() as int));
    }
}

/// Each way to complete a hand adds exactly the cards that the hand is
/// short of, and those are five at most.
pub proof fn lemma_option_size(hand: Seq<Card>, value: HandValue, i: int)
    requires
        0 <= i < options(hand, value).len(),
    ensures
        options(hand, value)[i].len() == shortfall(hand, value),
        shortfall(hand, value) <= 5,
{
    match value {
        HandValue::HighCard(rank) => lemma_rank_option_size(hand, 1, rank, i),
        HandValue::OnePair(rank) => lemma_rank_option_size(hand, 2, rank, i),
        HandValue::ThreeOfAKind(rank) => lemma_rank_option_size(hand, 3, rank, i),
        HandValue::FourOfAKind(rank) => lemma_rank_option_size(hand, 4, rank, i),
        HandValue::TwoPair(two_pair) => {
            let first = options_for_rank(hand, 2, two_pair.top());
            let second = options_for_rank(hand, 2, two_pair.bottom());
            lemma_joined(first, second, i);
            lemma_rank_option_size(hand, 2, two_pair.top(), i / (second.len() as int));
            lemma_rank_option_size(hand, 2, two_pair.bottom(), i % (second.len() as int));
        },
        HandValue::FullHouse(full_house) => {
            let first = options_for_rank(hand, 3, full_house.triple_rank());
            let second = options_for_rank(hand, 2, full_house.pair_rank());
            lemma_joined(first, second, i);
            lemma_rank_option_size(hand, 3, full_house.triple_rank(), i / (second.len() as int));
            lemma_rank_option_size(hand, 2, full_house.pair_rank(), i % (second.len() as int));
        },
        HandValue::Straight(top) => {
            lemma_run_option_size(hand, top.value() - 4, 5, i);
        },
    }
}

/// Joining the one way that adds nothing with itself gives the one way
/// that adds nothing.
pub proof fn lemma_joined_nothing()
    ensures
        joined(seq![Seq::<Card>::empty()], seq![Seq::<Card>::empty()]) == seq![
            Seq::<Card>::empty(),
        ],
{
    let nothing = seq![Seq::<Card>::empty()];
    assert(nothing.len() * nothing.len() == 1) by (nonlinear_arith)
        requires
            nothing.len() == 1,
    ;
    assert(joined(nothing, nothing)[0] =~= Seq::<Card>::empty());
    assert(joined(nothing, nothing) =~= nothing);
}

/// A hand that holds a card of each rank of a run is completed by adding
/// nothing.
pub proof fn lemma_run_options_when_held(hand: Seq<Card>, low: int, n: nat)
    requires
        2 <= low,
        low + n <= 15,
        forall|rank: Rank|
            low <= rank.value() < low + n ==> #[trigger] held_of_rank(hand, rank) >= 1,
    ensures
        run_options(hand, low, n) == seq![Seq::<Card>::empty()],
    decreases n,
{
    if n > 0 {
        lemma_run_options_when_held(hand, low, (n - 1) as nat);
        let rank = Rank::with_value(low + n - 1);
        crate::card::lemma_rank_values(rank, rank);
        assert(held_of_rank(hand, rank) >= 1);
        lemma_joined_nothing();
    }
}

/// A hand that satisfies a value is completed by adding nothing, and in no
/// other way.
pub proof fn lemma_options_when_held(hand: Seq<Card>, value: HandValue)
    requires
        holds(hand, value),
    ensures
        options(hand, value) == seq![Seq::<Card>::empty()],
{
    lemma_joined_nothing();
    match value {
        HandValue::Straight(top) => {
            crate::card::lemma_rank_values(top, top);
            lemma_run_options_when_held(hand, top.value() - 4, 5);
        },
        _ => {},
    }
}

/// Of the first `n` cards of `rank`, those that are missing from `hand` are
/// as many as the hand does not hold; they are of that rank, absent from
/// the hand, and all different.
pub proof fn lemma_missing_prefix(hand: Seq<Card>, rank: Rank, n: int)
    requires
        0 <= n <= 4,
    ensures
        ({
            let missing = Card::all_with_rank(rank).take(n).filter(absent_from(hand));
            &&& missing.len() == n - held_among_first(hand, rank, n)
            &&& missing.no_duplicates()
            &&& forall|i: int|
                0 <= i < missing.len() ==> (#[trigger] missing[i]).rank == rank && !hand.contains(
                    missing[i],
                ) && exists|at: int| 0 <= at < n && Card::all_with_rank(rank)[at] == missing[i]
        }),
    decreases n,
{
    let all = Card::all_with_rank(rank);
    if n == 0 {
        assert(all.take(0) =~= Seq::<Card>::empty());
        reveal(Seq::filter);
    } else {
        lemma_missing_prefix(hand, rank, n - 1);
        let before = all.take(n - 1);
        assert(all.take(n) =~= before.push(all[n - 1]));
        before.lemma_filter_push(all[n - 1], absent_from(hand));
        let missing = all.take(n).filter(absent_from(hand));
        let earlier = before.filter(absent_from(hand));
        assert forall|i: int| 0 <= i < missing.len() implies (#[trigger] missing[i]).rank == rank
            && !hand.contains(missing[i]) && exists|at: int|
            0 <= at < n && all[at] == missing[i] by {
            if i < earlier.len() {
                let at = choose|at: int| 0 <= at < n - 1 && all[at] == earlier[i];
                assert(all[at] == missing[i]);
            } else {
                assert(all[n - 1] == missing[i]);
            }
        }
        assert forall|i: int, j: int|
            0 <= i < missing.len() && 0 <= j < missing.len() && i != j implies missing[i]
            != missing[j] by {
            if i < earlier.len() && j < earlier.len() {
            } else {
                let low = if i < j {
                    i
                } else {
                    j
                };
                let at = choose|at: int| 0 <= at < n - 1 && all[at] == earlier[low];
                assert(all[at] != all[n - 1]);
            }
        }
    }
}

/// The cards of `rank` that are missing from `hand` are as many as the hand
/// does not hold of the four; they are of that rank, absent from the hand,
/// and all different.
pub proof fn lemma_missing(hand: Seq<Card>, rank: Rank)
    ensures
        missing_of_rank(hand, rank).len() == 4 - held_of_rank(hand, rank),
        missing_of_rank(hand, rank).no_duplicates(),
        forall|i: int|
            0 <= i < missing_of_rank(hand, rank).len() ==> (#[trigger] missing_of_rank(
                hand,
                rank,
            )[i]).rank == rank && !hand.contains(missing_of_rank(hand, rank)[i]),
{
    lemma_missing_prefix(hand, rank, 4);
    assert(Card::all_with_rank(rank).take(4) =~= Card::all_with_rank(rank));
}

/// One more card is present afterwards, and every other card is present
/// exactly if it was before.
pub proof fn lemma_present_push(cards: Seq<Card>, card: Card, probe: Card)
    ensures
        present(cards.push(card), probe) == if probe == card {
            1
        } else {
            present(cards, probe)
        },
{
    let more = cards.push(card);
    if probe == card {
        assert(more[cards.len() as int] == probe);
    } else if cards.contains(probe) {
        let i = choose|i: int| 0 <= i < cards.len() && cards[i] == probe;
        assert(more[i] == probe);
    } else if more.contains(probe) {
        let i = choose|i: int| 0 <= i < more.len() && more[i] == probe;
        assert(cards[i] == probe);
    }
}

/// One more card raises what is held of its rank by one if the card is new,
/// and changes nothing else.
pub proof fn lemma_held_push(cards: Seq<Card>, card: Card, rank: Rank)
    ensures
        held_of_rank(cards.push(card), rank) == held_of_rank(cards, rank) + if card.rank == rank
            && !cards.contains(card) {
            1nat
        } else {
            0nat
        },
{
    lemma_present_push(cards, card, Card { suit: Suit::Clubs, rank });
    lemma_present_push(cards, card, Card { suit: Suit::Spades, rank });
    lemma_present_push(cards, card, Card { suit: Suit::Hearts, rank });
    lemma_present_push(cards, card, Card { suit: Suit::Diamonds, rank });
}

/// Further cards of one rank, all different and none of them in `hand`,
/// raise what the hand holds of that rank by their number.
pub proof fn lemma_held_grows(hand: Seq<Card>, extra: Seq<Card>, rank: Rank)
    requires
        extra.no_duplicates(),
        forall|i: int| 0 <= i < extra.len() ==> (#[trigger] extra[i]).rank == rank && !hand.contains(
            extra[i],
        ),
    ensures
        held_of_rank(hand + extra, rank) == held_of_rank(hand, rank) + extra.len(),
    decreases extra.len(),
{
    if extra.len() == 0 {
        assert(hand + extra =~= hand);
    } else {
        let init = extra.drop_last();
        let last = extra.last();
        lemma_held_grows(hand, init, rank);
        let before = hand + init;
        assert(hand + extra =~= before.push(last));
        assert(!before.contains(last)) by {
            if before.contains(last) {
                let i = choose|i: int| 0 <= i < before.len() && before[i] == last;
                if i < hand.len() {
                    assert(hand[i] == last);
                } else {
                    assert(extra[i - hand.len()] == extra[extra.len() - 1]);
                }
            }
        }
        lemma_held_push(before, last, rank);
    }
}

/// Further cards of other ranks leave what the hand holds of `rank` as it
/// was.
pub proof fn lemma_held_ignores(hand: Seq<Card>, extra: Seq<Card>, rank: Rank)
    requires
        forall|i: int| 0 <= i < extra.len() ==> (#[trigger] extra[i]).rank != rank,
    ensures
        held_of_rank(hand + extra, rank) == held_of_rank(hand, rank),
    decreases extra.len(),
{
    if extra.len() == 0 {
        assert(hand + extra =~= hand);
    } else {
        lemma_held_ignores(hand, extra.drop_last(), rank);
        assert(hand + extra =~= (hand + extra.drop_last()).push(extra.last()));
        lemma_held_push(hand + extra.drop_last(), extra.last(), rank);
    }
}

} // verus!
