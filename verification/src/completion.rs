//! What the ways to complete a hand have in common, proved of every hand
//! and every value: each way adds cards that the hand lacks, none of them
//! twice, and with them the hand satisfies the value; no smaller set of
//! cards would do; and every set of that size that does is listed.

use crate::adapters::combinations_of;
use crate::card::Card;
use crate::card::Rank;
use crate::card::Suit;
use crate::needed::joined;
use crate::needed::lemma_held_grows;
use crate::needed::lemma_held_ignores;
use crate::needed::lemma_held_push;
use crate::needed::lemma_joined;
use crate::needed::lemma_missing;
use crate::needed::missing_of_rank;
use crate::needed::options;
use crate::needed::options_for_rank;
use crate::needed::run_options;
use crate::needed::run_shortfall;
use crate::needed::short_of;
use crate::needed::shortfall;
use crate::poker::FullHouse;
use crate::poker::HandValue;
use crate::poker::TwoPair;
use crate::poker::held_of_rank;
use crate::poker::holds;
use vstd::prelude::*;

verus! {

/// Whether `extra` is a set of cards that `hand` lacks: no card twice, and
/// none that stands in the hand.
pub open spec fn is_addition(hand: Seq<Card>, extra: Seq<Card>) -> bool {
    extra.no_duplicates() && forall|i: int|
        0 <= i < extra.len() ==> !hand.contains(#[trigger] extra[i])
}

/// Each way to bring a rank up to `size` adds cards of that rank which the
/// hand lacks, and with them the hand holds `size` cards of the rank or
/// what it held before, whichever is more.
pub proof fn lemma_rank_option_completes(hand: Seq<Card>, size: nat, rank: Rank, i: int)
    requires
        size <= 4,
        0 <= i < options_for_rank(hand, size, rank).len(),
    ensures
        is_addition(hand, options_for_rank(hand, size, rank)[i]),
        forall|j: int|
            0 <= j < options_for_rank(hand, size, rank)[i].len() ==> (#[trigger] options_for_rank(
                hand,
                size,
                rank,
            )[i][j]).rank == rank,
        held_of_rank(hand + options_for_rank(hand, size, rank)[i], rank) >= size,
{
    let held = held_of_rank(hand, rank);
    let extra = options_for_rank(hand, size, rank)[i];
    if held >= size {
        assert(hand + extra =~= hand);
    } else {
        let missing = missing_of_rank(hand, rank);
        crate::combinatorics::lemma_pick_is_selection(missing, (size - held) as nat, i);
        lemma_missing(hand, rank);
        assert forall|j: int| 0 <= j < extra.len() implies (#[trigger] extra[j]).rank == rank
            && !hand.contains(extra[j]) by {
            assert(extra.contains(extra[j]));
            let from = choose|from: int| 0 <= from < missing.len() && missing[from] == extra[j];
            assert(missing[from].rank == rank);
        }
        lemma_held_grows(hand, extra, rank);
    }
}

/// Two additions of cards of different ranks make one addition, and what
/// the hand then holds of either rank is what it holds with the addition of
/// that rank alone.
pub proof fn lemma_two_additions(
    hand: Seq<Card>,
    first: Seq<Card>,
    second: Seq<Card>,
    first_rank: Rank,
    second_rank: Rank,
)
    requires
        first_rank != second_rank,
        is_addition(hand, first),
        is_addition(hand, second),
        forall|j: int| 0 <= j < first.len() ==> (#[trigger] first[j]).rank == first_rank,
        forall|j: int| 0 <= j < second.len() ==> (#[trigger] second[j]).rank == second_rank,
    ensures
        is_addition(hand, first + second),
        held_of_rank(hand + (first + second), first_rank) == held_of_rank(hand + first, first_rank),
        held_of_rank(hand + (first + second), second_rank) == held_of_rank(
            hand + second,
            second_rank,
        ),
{
    let both = first + second;
    vstd::seq_lib::lemma_no_dup_in_concat(first, second);
    assert(hand + both =~= (hand + first) + second);
    lemma_held_ignores(hand + first, second, first_rank);
    assert forall|j: int| 0 <= j < second.len() implies !(hand + first).contains(
        #[trigger] second[j],
    ) by {
        if (hand + first).contains(second[j]) {
            let at = choose|at: int|
                0 <= at < (hand + first).len() && (hand + first)[at] == second[j];
            if at < hand.len() {
                assert(hand[at] == second[j]);
            } else {
                assert(first[at - hand.len()].rank == first_rank);
            }
        }
    }
    lemma_held_grows(hand + first, second, second_rank);
    lemma_held_ignores(hand, first, second_rank);
    lemma_held_grows(hand, second, second_rank);
}

/// Each way to complete a run of ranks adds cards of those ranks which the
/// hand lacks, and with them the hand holds a card of each rank of the run.
pub proof fn lemma_run_option_completes(hand: Seq<Card>, low: int, n: nat, i: int)
    requires
        2 <= low,
        low + n <= 15,
        0 <= i < run_options(hand, low, n).len(),
    ensures
        is_addition(hand, run_options(hand, low, n)[i]),
        forall|j: int|
            0 <= j < run_options(hand, low, n)[i].len() ==> low <= (#[trigger] run_options(
                hand,
                low,
                n,
            )[i][j]).rank.value() < low + n,
        forall|rank: Rank|
            low <= rank.value() < low + n ==> #[trigger] held_of_rank(
                hand + run_options(hand, low, n)[i],
                rank,
            ) >= 1,
    decreases n,
{
    let extra = run_options(hand, low, n)[i];
    if n == 0 {
        assert(hand + extra =~= hand);
    } else {
        let before = run_options(hand, low, (n - 1) as nat);
        let last_rank = Rank::with_value(low + n - 1);
        crate::card::lemma_rank_values(last_rank, last_rank);
        let last = options_for_rank(hand, 1, last_rank);
        lemma_joined(before, last, i);
        let row = i / (last.len() as int);
        let col = i % (last.len() as int);
        let head = before[row];
        let tail = last[col];
        lemma_run_option_completes(hand, low, (n - 1) as nat, row);
        lemma_rank_option_completes(hand, 1, last_rank, col);
        assert(extra == head + tail);
        assert forall|a: int, b: int| 0 <= a < head.len() && 0 <= b < tail.len() implies head[a]
            != tail[b] by {
            assert(head[a].rank.value() < low + n - 1);
            assert(tail[b].rank == last_rank);
        }
        vstd::seq_lib::lemma_no_dup_in_concat(head, tail);
        assert(hand + extra =~= (hand + head) + tail);
        assert forall|j: int| 0 <= j < tail.len() implies !(hand + head).contains(
            #[trigger] tail[j],
        ) by {
            if (hand + head).contains(tail[j]) {
                let at = choose|at: int|
                    0 <= at < (hand + head).len() && (hand + head)[at] == tail[j];
                if at < hand.len() {
                    assert(hand[at] == tail[j]);
                } else {
                    assert(head[at - hand.len()].rank.value() < low + n - 1);
                }
            }
        }
        assert forall|j: int| 0 <= j < extra.len() implies !hand.contains(#[trigger] extra[j]) by {
            if j < head.len() {
                assert(extra[j] == head[j]);
            } else {
                assert(extra[j] == tail[j - head.len()]);
            }
        }
        assert forall|j: int| 0 <= j < extra.len() implies low <= (#[trigger] extra[j]).rank.value()
            < low + n by {
            if j < head.len() {
                assert(extra[j] == head[j]);
            } else {
                assert(extra[j] == tail[j - head.len()]);
            }
        }
        assert forall|rank: Rank| low <= rank.value() < low + n implies #[trigger] held_of_rank(
            hand + extra,
            rank,
        ) >= 1 by {
            crate::card::lemma_rank_values(rank, last_rank);
            if rank == last_rank {
                assert forall|j: int| 0 <= j < head.len() implies (#[trigger] head[j]).rank
                    != last_rank by {
                    assert(head[j].rank.value() < low + n - 1);
                }
                lemma_held_ignores(hand, head, last_rank);
                lemma_held_grows(hand + head, tail, last_rank);
                lemma_held_grows(hand, tail, last_rank);
            } else {
                lemma_held_ignores(hand + head, tail, rank);
                assert(held_of_rank(hand + head, rank) >= 1);
            }
        }
    }
}

/// Every way of `options` completes the hand: it adds cards that the hand
/// lacks, none of them twice, and the hand with them satisfies the value.
pub proof fn lemma_option_completes(hand: Seq<Card>, value: HandValue, i: int)
    requires
        value.wf(),
        0 <= i < options(hand, value).len(),
    ensures
        is_addition(hand, options(hand, value)[i]),
        holds(hand + options(hand, value)[i], value),
{
    match value {
        HandValue::HighCard(rank) => lemma_rank_option_completes(hand, 1, rank, i),
        HandValue::OnePair(rank) => lemma_rank_option_completes(hand, 2, rank, i),
        HandValue::ThreeOfAKind(rank) => lemma_rank_option_completes(hand, 3, rank, i),
        HandValue::FourOfAKind(rank) => lemma_rank_option_completes(hand, 4, rank, i),
        HandValue::TwoPair(two_pair) => {
            TwoPair::lemma_determined(two_pair, two_pair);
            let first = options_for_rank(hand, 2, two_pair.top());
            let second = options_for_rank(hand, 2, two_pair.bottom());
            lemma_joined(first, second, i);
            let row = i / (second.len() as int);
            let col = i % (second.len() as int);
            lemma_rank_option_completes(hand, 2, two_pair.top(), row);
            lemma_rank_option_completes(hand, 2, two_pair.bottom(), col);
            lemma_two_additions(
                hand,
                first[row],
                second[col],
                two_pair.top(),
                two_pair.bottom(),
            );
        },
        HandValue::FullHouse(full_house) => {
            FullHouse::lemma_determined(
                full_house,
                full_house,
                full_house.triple_rank(),
                full_house.pair_rank(),
            );
            let first = options_for_rank(hand, 3, full_house.triple_rank());
            let second = options_for_rank(hand, 2, full_house.pair_rank());
            lemma_joined(first, second, i);
            let row = i / (second.len() as int);
            let col = i % (second.len() as int);
            lemma_rank_option_completes(hand, 3, full_house.triple_rank(), row);
            lemma_rank_option_completes(hand, 2, full_house.pair_rank(), col);
            lemma_two_additions(
                hand,
                first[row],
                second[col],
                full_house.triple_rank(),
                full_house.pair_rank(),
            );
        },
        HandValue::Straight(top) => {
            crate::card::lemma_rank_values(top, top);
            lemma_run_option_completes(hand, top.value() - 4, 5, i);
        },
    }
}

/// How many cards of `cards` are of `rank`.
pub open spec fn cards_of_rank(cards: Seq<Card>, rank: Rank) -> nat
    decreases cards.len(),
{
    if cards.len() == 0 {
        0
    } else {
        cards_of_rank(cards.drop_last(), rank) + if cards.last().rank == rank {
            1nat
        } else {
            0nat
        }
    }
}

/// How many cards of `cards` are of one of the `n` ranks whose numbers
/// start at `low`, counted rank by rank.
pub open spec fn cards_of_run(cards: Seq<Card>, low: int, n: nat) -> nat
    decreases n,
{
    if n == 0 {
        0
    } else {
        cards_of_run(cards, low, (n - 1) as nat) + cards_of_rank(
            cards,
            Rank::with_value(low + n - 1),
        )
    }
}

/// Further cards raise what a hand holds of a rank by no more than the
/// number of them that are of that rank.
pub proof fn lemma_held_bound(hand: Seq<Card>, extra: Seq<Card>, rank: Rank)
    ensures
        held_of_rank(hand + extra, rank) <= held_of_rank(hand, rank) + cards_of_rank(extra, rank),
        cards_of_rank(extra, rank) <= extra.len(),
    decreases extra.len(),
{
    if extra.len() == 0 {
        assert(hand + extra =~= hand);
    } else {
        lemma_held_bound(hand, extra.drop_last(), rank);
        assert(hand + extra =~= (hand + extra.drop_last()).push(extra.last()));
        lemma_held_push(hand + extra.drop_last(), extra.last(), rank);
    }
}

/// A card is counted once for each of two different ranks at most.
pub proof fn lemma_two_ranks_bound(extra: Seq<Card>, first: Rank, second: Rank)
    requires
        first != second,
    ensures
        cards_of_rank(extra, first) + cards_of_rank(extra, second) <= extra.len(),
    decreases extra.len(),
{
    if extra.len() > 0 {
        lemma_two_ranks_bound(extra.drop_last(), first, second);
    }
}

/// One more card raises the count for a run of ranks by one if the card is
/// of a rank of the run, and not at all if it is not.
pub proof fn lemma_run_count_push(extra: Seq<Card>, card: Card, low: int, n: nat)
    requires
        2 <= low,
        low + n <= 15,
    ensures
        cards_of_run(extra.push(card), low, n) == cards_of_run(extra, low, n) + if low
            <= card.rank.value() < low + n {
            1nat
        } else {
            0nat
        },
    decreases n,
{
    if n > 0 {
        lemma_run_count_push(extra, card, low, (n - 1) as nat);
        let rank = Rank::with_value(low + n - 1);
        crate::card::lemma_rank_values(rank, card.rank);
        assert(extra.push(card).drop_last() =~= extra);
    }
}

/// The cards of the ranks of a run are no more than the cards.
pub proof fn lemma_run_count_bound(extra: Seq<Card>, low: int, n: nat)
    requires
        2 <= low,
        low + n <= 15,
    ensures
        cards_of_run(extra, low, n) <= extra.len(),
    decreases extra.len(), n,
{
    if extra.len() == 0 {
        if n > 0 {
            lemma_run_count_bound(extra, low, (n - 1) as nat);
        }
    } else {
        lemma_run_count_bound(extra.drop_last(), low, n);
        lemma_run_count_push(extra.drop_last(), extra.last(), low, n);
        assert(extra.drop_last().push(extra.last()) =~= extra);
    }
}

/// Cards that bring a hand to hold a card of each rank of a run hold a card
/// of each rank of which the hand holds none.
pub proof fn lemma_run_needs(hand: Seq<Card>, extra: Seq<Card>, low: int, n: nat)
    requires
        2 <= low,
        low + n <= 15,
        forall|rank: Rank|
            low <= rank.value() < low + n ==> #[trigger] held_of_rank(hand + extra, rank) >= 1,
    ensures
        run_shortfall(hand, low, n) <= cards_of_run(extra, low, n),
    decreases n,
{
    if n > 0 {
        lemma_run_needs(hand, extra, low, (n - 1) as nat);
        let rank = Rank::with_value(low + n - 1);
        crate::card::lemma_rank_values(rank, rank);
        assert(held_of_rank(hand + extra, rank) >= 1);
        lemma_held_bound(hand, extra, rank);
    }
}

/// No fewer cards will do for two ranks: cards that bring the hand to hold
/// so many of each of two different ranks are at least as many as the hand
/// is short of for the two together.
pub proof fn lemma_no_smaller_for_two_ranks(
    hand: Seq<Card>,
    first_size: nat,
    first_rank: Rank,
    second_size: nat,
    second_rank: Rank,
    extra: Seq<Card>,
)
    requires
        first_rank != second_rank,
        held_of_rank(hand + extra, first_rank) >= first_size,
        held_of_rank(hand + extra, second_rank) >= second_size,
    ensures
        extra.len() >= short_of(hand, first_size, first_rank) + short_of(
            hand,
            second_size,
            second_rank,
        ),
{
    lemma_held_bound(hand, extra, first_rank);
    lemma_held_bound(hand, extra, second_rank);
    lemma_two_ranks_bound(extra, first_rank, second_rank);
}

/// No fewer cards will do for a run: cards that bring the hand to hold a
/// card of each rank of a run are at least as many as the ranks of which
/// the hand holds none.
pub proof fn lemma_no_smaller_for_run(hand: Seq<Card>, low: int, n: nat, extra: Seq<Card>)
    requires
        2 <= low,
        low + n <= 15,
        forall|rank: Rank|
            low <= rank.value() < low + n ==> #[trigger] held_of_rank(hand + extra, rank) >= 1,
    ensures
        extra.len() >= run_shortfall(hand, low, n),
{
    lemma_run_needs(hand, extra, low, n);
    lemma_run_count_bound(extra, low, n);
}

/// No fewer cards will do: cards with which the hand satisfies the value,
/// whichever they are, are at least as many as each way of `options` adds.
pub proof fn lemma_no_smaller_addition(hand: Seq<Card>, value: HandValue, extra: Seq<Card>)
    requires
        value.wf(),
        holds(hand + extra, value),
    ensures
        extra.len() >= shortfall(hand, value),
{
    match value {
        HandValue::HighCard(rank) => lemma_held_bound(hand, extra, rank),
        HandValue::OnePair(rank) => lemma_held_bound(hand, extra, rank),
        HandValue::ThreeOfAKind(rank) => lemma_held_bound(hand, extra, rank),
        HandValue::FourOfAKind(rank) => lemma_held_bound(hand, extra, rank),
        HandValue::TwoPair(two_pair) => {
            TwoPair::lemma_determined(two_pair, two_pair);
            lemma_no_smaller_for_two_ranks(hand, 2, two_pair.top(), 2, two_pair.bottom(), extra);
        },
        HandValue::FullHouse(full_house) => {
            FullHouse::lemma_determined(
                full_house,
                full_house,
                full_house.triple_rank(),
                full_house.pair_rank(),
            );
            lemma_no_smaller_for_two_ranks(
                hand,
                3,
                full_house.triple_rank(),
                2,
                full_house.pair_rank(),
                extra,
            );
        },
        HandValue::Straight(top) => {
            crate::card::lemma_rank_values(top, top);
            lemma_no_smaller_for_run(hand, top.value() - 4, 5, extra);
        },
    }
}

/// The test that a card is of `rank`.
pub open spec fn of_rank(rank: Rank) -> spec_fn(Card) -> bool {
    |card: Card| card.rank == rank
}

/// The test that a card is not of `rank`.
pub open spec fn not_of_rank(rank: Rank) -> spec_fn(Card) -> bool {
    |card: Card| card.rank != rank
}

/// The cards of an addition that pass a test are an addition too: they
/// are the cards of the addition that pass, each once.
pub proof fn lemma_part_of_addition(hand: Seq<Card>, extra: Seq<Card>, keep: spec_fn(Card) -> bool)
    requires
        is_addition(hand, extra),
    ensures
        is_addition(hand, extra.filter(keep)),
        forall|card: Card| #[trigger]
            extra.filter(keep).contains(card) <==> extra.contains(card) && keep(card),
    decreases extra.len(),
{
    let part = extra.filter(keep);
    if extra.len() == 0 {
        reveal(Seq::filter);
    } else {
        let init = extra.drop_last();
        let last = extra.last();
        assert(init.push(last) =~= extra);
        init.lemma_filter_push(last, keep);
        assert(is_addition(hand, init)) by {
            assert forall|i: int| 0 <= i < init.len() implies !hand.contains(
                #[trigger] init[i],
            ) by {
                assert(init[i] == extra[i]);
            }
        }
        lemma_part_of_addition(hand, init, keep);
        let before = init.filter(keep);
        assert(!init.contains(last)) by {
            if init.contains(last) {
                let at = choose|at: int| 0 <= at < init.len() && init[at] == last;
                assert(extra[at] == extra[extra.len() - 1]);
            }
        }
        assert forall|card: Card| #[trigger]
            part.contains(card) <==> extra.contains(card) && keep(card) by {
            if part.contains(card) {
                let at = choose|at: int| 0 <= at < part.len() && part[at] == card;
                if at < before.len() {
                    assert(before[at] == card);
                    assert(before.contains(card));
                    let from = choose|from: int| 0 <= from < init.len() && init[from] == card;
                    assert(extra[from] == card);
                } else {
                    assert(card == last);
                }
            }
            if extra.contains(card) && keep(card) {
                let from = choose|from: int| 0 <= from < extra.len() && extra[from] == card;
                if from < init.len() {
                    assert(init[from] == card);
                    assert(init.contains(card));
                    assert(before.contains(card));
                    let at = choose|at: int| 0 <= at < before.len() && before[at] == card;
                    assert(part[at] == card);
                } else {
                    assert(part[part.len() - 1] == card);
                }
            }
        }
        assert forall|i: int| 0 <= i < part.len() implies !hand.contains(#[trigger] part[i]) by {
            assert(part.contains(part[i]));
            let from = choose|from: int| 0 <= from < extra.len() && extra[from] == part[i];
        }
        assert forall|a: int, b: int| 0 <= a < part.len() && 0 <= b < part.len() && a
            != b implies part[a] != part[b] by {
            if a < before.len() && b < before.len() {
            } else {
                let low = if a < b {
                    a
                } else {
                    b
                };
                assert(before.contains(before[low]));
            }
        }
    }
}

/// The cards of `rank` among some cards are as many as `cards_of_rank`
/// counts, and leaving out the cards of another rank does not change the
/// count.
pub proof fn lemma_count_of_part(extra: Seq<Card>, rank: Rank, other: Rank)
    ensures
        extra.filter(of_rank(rank)).len() == cards_of_rank(extra, rank),
        other != rank ==> cards_of_rank(extra.filter(not_of_rank(other)), rank) == cards_of_rank(
            extra,
            rank,
        ),
    decreases extra.len(),
{
    if extra.len() == 0 {
        reveal(Seq::filter);
    } else {
        let init = extra.drop_last();
        let last = extra.last();
        assert(init.push(last) =~= extra);
        init.lemma_filter_push(last, of_rank(rank));
        init.lemma_filter_push(last, not_of_rank(other));
        lemma_count_of_part(init, rank, other);
        if last.rank != other {
            assert(init.filter(not_of_rank(other)).push(last).drop_last() =~= init.filter(
                not_of_rank(other),
            ));
        }
    }
}

/// Where as many cards are of a rank as there are cards, all are.
pub proof fn lemma_all_of_rank(extra: Seq<Card>, rank: Rank)
    requires
        cards_of_rank(extra, rank) == extra.len(),
    ensures
        forall|j: int| 0 <= j < extra.len() ==> (#[trigger] extra[j]).rank == rank,
    decreases extra.len(),
{
    if extra.len() > 0 {
        let init = extra.drop_last();
        lemma_held_bound(Seq::<Card>::empty(), init, rank);
        lemma_all_of_rank(init, rank);
        assert forall|j: int| 0 <= j < extra.len() implies (#[trigger] extra[j]).rank == rank by {
            if j < init.len() {
                assert(init[j] == extra[j]);
            }
        }
    }
}

/// Where the cards of two different ranks are as many as there are cards,
/// every card is of one of the two.
pub proof fn lemma_all_of_two_ranks(extra: Seq<Card>, first: Rank, second: Rank)
    requires
        first != second,
        cards_of_rank(extra, first) + cards_of_rank(extra, second) == extra.len(),
    ensures
        forall|j: int|
            0 <= j < extra.len() ==> (#[trigger] extra[j]).rank == first || extra[j].rank == second,
    decreases extra.len(),
{
    if extra.len() > 0 {
        let init = extra.drop_last();
        lemma_two_ranks_bound(init, first, second);
        lemma_all_of_two_ranks(init, first, second);
        assert forall|j: int| 0 <= j < extra.len() implies (#[trigger] extra[j]).rank == first
            || extra[j].rank == second by {
            if j < init.len() {
                assert(init[j] == extra[j]);
            }
        }
    }
}

/// Where the cards of the ranks of a run are as many as there are cards,
/// every card is of a rank of the run.
pub proof fn lemma_all_of_run(extra: Seq<Card>, low: int, n: nat)
    requires
        2 <= low,
        low + n <= 15,
        cards_of_run(extra, low, n) == extra.len(),
    ensures
        forall|j: int| 0 <= j < extra.len() ==> low <= (#[trigger] extra[j]).rank.value() < low + n,
    decreases extra.len(),
{
    if extra.len() > 0 {
        let init = extra.drop_last();
        lemma_run_count_bound(init, low, n);
        lemma_run_count_push(init, extra.last(), low, n);
        assert(init.push(extra.last()) =~= extra);
        lemma_all_of_run(init, low, n);
        assert forall|j: int| 0 <= j < extra.len() implies low <= (#[trigger] extra[j]).rank.value()
            < low + n by {
            if j < init.len() {
                assert(init[j] == extra[j]);
            }
        }
    }
}

/// A card of a rank that the hand lacks is one of the missing cards of
/// that rank.
pub proof fn lemma_lacking_is_missing(hand: Seq<Card>, card: Card)
    requires
        !hand.contains(card),
    ensures
        missing_of_rank(hand, card.rank).contains(card),
{
    let all = Card::all_with_rank(card.rank);
    let at: int = match card.suit {
        Suit::Clubs => 0,
        Suit::Spades => 1,
        Suit::Hearts => 2,
        Suit::Diamonds => 3,
    };
    assert(all[at] == card);
    all.lemma_filter_contains(crate::needed::absent_from(hand), at);
}

/// Cards of one rank that the hand lacks, as many as it is short of, are
/// the cards of one of the ways to bring that rank up.
pub proof fn lemma_rank_addition_is_listed(hand: Seq<Card>, size: nat, rank: Rank, extra: Seq<Card>)
    requires
        size <= 4,
        is_addition(hand, extra),
        forall|j: int| 0 <= j < extra.len() ==> (#[trigger] extra[j]).rank == rank,
        extra.len() == short_of(hand, size, rank),
    ensures
        exists|i: int|
            0 <= i < options_for_rank(hand, size, rank).len() && (#[trigger] options_for_rank(
                hand,
                size,
                rank,
            )[i]).to_set() == extra.to_set(),
{
    let held = held_of_rank(hand, rank);
    let listed = options_for_rank(hand, size, rank);
    if held >= size {
        assert(listed[0].to_set() =~= extra.to_set());
    } else {
        let missing = missing_of_rank(hand, rank);
        let chosen = extra.to_set();
        extra.unique_seq_to_set();
        vstd::seq_lib::seq_to_set_is_finite(extra);
        assert forall|card: Card| chosen.contains(card) implies missing.contains(card) by {
            let at = choose|at: int| 0 <= at < extra.len() && extra[at] == card;
            lemma_lacking_is_missing(hand, card);
        }
        crate::combinatorics::lemma_every_choice_is_picked(missing, chosen);
        let i = choose|i: int|
            0 <= i < combinations_of(missing, chosen.len()).len() && (#[trigger] combinations_of(
                missing,
                chosen.len(),
            )[i]).to_set() == chosen;
        assert(listed[i].to_set() == extra.to_set());
    }
}

/// One set of each of two lists, taken together, stands in the joined list.
pub proof fn lemma_joined_holds(first: Seq<Seq<Card>>, second: Seq<Seq<Card>>, row: int, col: int)
    requires
        0 <= row < first.len(),
        0 <= col < second.len(),
    ensures
        0 <= row * second.len() + col < joined(first, second).len(),
        joined(first, second)[row * second.len() + col] == first[row] + second[col],
{
    let cols = second.len() as int;
    let at = row * cols + col;
    assert(0 <= at < first.len() * cols) by (nonlinear_arith)
        requires
            0 <= row < first.len(),
            0 <= col < cols,
            at == row * cols + col,
    ;
    vstd::arithmetic::div_mod::lemma_fundamental_div_mod_converse(at, cols, row, col);
    lemma_joined(first, second, at);
}

/// The cards of two parts of an addition, where each card is in one of the
/// parts, are the cards of the addition.
pub proof fn lemma_parts_make_the_whole(
    extra: Seq<Card>,
    one: spec_fn(Card) -> bool,
    other: spec_fn(Card) -> bool,
    first: Seq<Card>,
    second: Seq<Card>,
)
    requires
        forall|card: Card| #[trigger]
            extra.filter(one).contains(card) <==> extra.contains(card) && one(card),
        forall|card: Card| #[trigger]
            extra.filter(other).contains(card) <==> extra.contains(card) && other(card),
        forall|j: int| 0 <= j < extra.len() ==> one(#[trigger] extra[j]) || other(extra[j]),
        first.to_set() == extra.filter(one).to_set(),
        second.to_set() == extra.filter(other).to_set(),
    ensures
        (first + second).to_set() == extra.to_set(),
{
    let both = first + second;
    assert forall|card: Card| both.to_set().contains(card) == extra.to_set().contains(card) by {
        if both.contains(card) {
            let at = choose|at: int| 0 <= at < both.len() && both[at] == card;
            if at < first.len() {
                assert(first[at] == card);
                assert(first.to_set().contains(card));
                assert(extra.filter(one).to_set().contains(card));
            } else {
                assert(second[at - first.len()] == card);
                assert(second.to_set().contains(card));
                assert(extra.filter(other).to_set().contains(card));
            }
        }
        if extra.contains(card) {
            let from = choose|from: int| 0 <= from < extra.len() && extra[from] == card;
            if one(card) {
                assert(extra.filter(one).to_set().contains(card));
                assert(first.to_set().contains(card));
                let at = choose|at: int| 0 <= at < first.len() && first[at] == card;
                assert(both[at] == card);
            } else {
                assert(other(extra[from]));
                assert(extra.filter(other).to_set().contains(card));
                assert(second.to_set().contains(card));
                let at = choose|at: int| 0 <= at < second.len() && second[at] == card;
                assert(both[first.len() + at] == card);
            }
        }
    }
    assert(both.to_set() =~= extra.to_set());
}

/// Cards of two different ranks that the hand lacks, as many of each rank
/// as the hand is short of, are the cards of one of the joined ways to
/// bring the two ranks up.
pub proof fn lemma_two_rank_addition_is_listed(
    hand: Seq<Card>,
    first_size: nat,
    first_rank: Rank,
    second_size: nat,
    second_rank: Rank,
    extra: Seq<Card>,
)
    requires
        first_size <= 4,
        second_size <= 4,
        first_rank != second_rank,
        is_addition(hand, extra),
        cards_of_rank(extra, first_rank) == short_of(hand, first_size, first_rank),
        cards_of_rank(extra, second_rank) == short_of(hand, second_size, second_rank),
        extra.len() == cards_of_rank(extra, first_rank) + cards_of_rank(extra, second_rank),
    ensures
        exists|i: int|
            0 <= i < joined(
                options_for_rank(hand, first_size, first_rank),
                options_for_rank(hand, second_size, second_rank),
            ).len() && (#[trigger] joined(
                options_for_rank(hand, first_size, first_rank),
                options_for_rank(hand, second_size, second_rank),
            )[i]).to_set() == extra.to_set(),
{
    let first = options_for_rank(hand, first_size, first_rank);
    let second = options_for_rank(hand, second_size, second_rank);
    let one = extra.filter(of_rank(first_rank));
    let other = extra.filter(of_rank(second_rank));
    lemma_part_of_addition(hand, extra, of_rank(first_rank));
    lemma_part_of_addition(hand, extra, of_rank(second_rank));
    lemma_count_of_part(extra, first_rank, first_rank);
    lemma_count_of_part(extra, second_rank, second_rank);
    assert forall|j: int| 0 <= j < one.len() implies (#[trigger] one[j]).rank == first_rank by {
        assert(one.contains(one[j]));
    }
    assert forall|j: int| 0 <= j < other.len() implies (#[trigger] other[j]).rank
        == second_rank by {
        assert(other.contains(other[j]));
    }
    lemma_rank_addition_is_listed(hand, first_size, first_rank, one);
    lemma_rank_addition_is_listed(hand, second_size, second_rank, other);
    let row = choose|row: int|
        0 <= row < first.len() && (#[trigger] first[row]).to_set() == one.to_set();
    let col = choose|col: int|
        0 <= col < second.len() && (#[trigger] second[col]).to_set() == other.to_set();
    lemma_joined_holds(first, second, row, col);
    lemma_all_of_two_ranks(extra, first_rank, second_rank);
    lemma_parts_make_the_whole(
        extra,
        of_rank(first_rank),
        of_rank(second_rank),
        first[row],
        second[col],
    );
    let at = row * second.len() + col;
    assert(joined(first, second)[at].to_set() == extra.to_set());
}

/// Where the cards of each rank of a run are at least as many as the hand
/// is short of, and all together no more than it is short of, they are
/// exactly as many for each rank.
pub proof fn lemma_run_counts_are_exact(hand: Seq<Card>, extra: Seq<Card>, low: int, n: nat)
    requires
        2 <= low,
        low + n <= 15,
        forall|rank: Rank|
            low <= rank.value() < low + n ==> #[trigger] cards_of_rank(extra, rank) >= short_of(
                hand,
                1,
                rank,
            ),
        cards_of_run(extra, low, n) <= run_shortfall(hand, low, n),
    ensures
        cards_of_run(extra, low, n) == run_shortfall(hand, low, n),
        forall|rank: Rank|
            low <= rank.value() < low + n ==> #[trigger] cards_of_rank(extra, rank) == short_of(
                hand,
                1,
                rank,
            ),
    decreases n,
{
    if n > 0 {
        let last = Rank::with_value(low + n - 1);
        crate::card::lemma_rank_values(last, last);
        assert(cards_of_rank(extra, last) >= short_of(hand, 1, last));
        lemma_run_counts_at_least(hand, extra, low, (n - 1) as nat);
        lemma_run_counts_are_exact(hand, extra, low, (n - 1) as nat);
        assert forall|rank: Rank| low <= rank.value() < low + n implies #[trigger] cards_of_rank(
            extra,
            rank,
        ) == short_of(hand, 1, rank) by {
            crate::card::lemma_rank_values(rank, last);
        }
    }
}

/// Where the cards of each rank of a run are at least as many as the hand
/// is short of, so are the cards of the run together.
pub proof fn lemma_run_counts_at_least(hand: Seq<Card>, extra: Seq<Card>, low: int, n: nat)
    requires
        2 <= low,
        low + n <= 15,
        forall|rank: Rank|
            low <= rank.value() < low + n ==> #[trigger] cards_of_rank(extra, rank) >= short_of(
                hand,
                1,
                rank,
            ),
    ensures
        cards_of_run(extra, low, n) >= run_shortfall(hand, low, n),
    decreases n,
{
    if n > 0 {
        let last = Rank::with_value(low + n - 1);
        crate::card::lemma_rank_values(last, last);
        assert(cards_of_rank(extra, last) >= short_of(hand, 1, last));
        lemma_run_counts_at_least(hand, extra, low, (n - 1) as nat);
    }
}

/// Cards of the ranks of a run that the hand lacks, one for each rank of
/// which the hand holds none and no others, are the cards of one of the
/// ways to complete the run.
pub proof fn lemma_run_addition_is_listed(hand: Seq<Card>, low: int, n: nat, extra: Seq<Card>)
    requires
        2 <= low,
        low + n <= 15,
        is_addition(hand, extra),
        forall|j: int| 0 <= j < extra.len() ==> low <= (#[trigger] extra[j]).rank.value() < low + n,
        forall|rank: Rank|
            low <= rank.value() < low + n ==> #[trigger] cards_of_rank(extra, rank) == short_of(
                hand,
                1,
                rank,
            ),
    ensures
        exists|i: int|
            0 <= i < run_options(hand, low, n).len() && (#[trigger] run_options(
                hand,
                low,
                n,
            )[i]).to_set() == extra.to_set(),
    decreases n,
{
    if n == 0 {
        assert(extra.len() == 0) by {
            if extra.len() > 0 {
                assert(low <= extra[0].rank.value() < low);
            }
        }
        assert(run_options(hand, low, n)[0].to_set() =~= extra.to_set());
    } else {
        let last = Rank::with_value(low + n - 1);
        crate::card::lemma_rank_values(last, last);
        let before = run_options(hand, low, (n - 1) as nat);
        let for_last = options_for_rank(hand, 1, last);
        let head = extra.filter(not_of_rank(last));
        let tail = extra.filter(of_rank(last));
        lemma_part_of_addition(hand, extra, not_of_rank(last));
        lemma_part_of_addition(hand, extra, of_rank(last));
        lemma_count_of_part(extra, last, last);
        assert forall|j: int| 0 <= j < head.len() implies low <= (#[trigger] head[j]).rank.value()
            < low + n - 1 by {
            assert(head.contains(head[j]));
            let from = choose|from: int| 0 <= from < extra.len() && extra[from] == head[j];
            crate::card::lemma_rank_values(head[j].rank, last);
        }
        assert forall|rank: Rank| low <= rank.value() < low + n - 1 implies #[trigger] cards_of_rank(
            head,
            rank,
        ) == short_of(hand, 1, rank) by {
            lemma_count_of_part(extra, rank, last);
            assert(cards_of_rank(extra, rank) == short_of(hand, 1, rank));
        }
        lemma_run_addition_is_listed(hand, low, (n - 1) as nat, head);
        assert forall|j: int| 0 <= j < tail.len() implies (#[trigger] tail[j]).rank == last by {
            assert(tail.contains(tail[j]));
        }
        assert(cards_of_rank(extra, last) == short_of(hand, 1, last));
        lemma_rank_addition_is_listed(hand, 1, last, tail);
        let row = choose|row: int|
            0 <= row < before.len() && (#[trigger] before[row]).to_set() == head.to_set();
        let col = choose|col: int|
            0 <= col < for_last.len() && (#[trigger] for_last[col]).to_set() == tail.to_set();
        lemma_joined_holds(before, for_last, row, col);
        lemma_parts_make_the_whole(
            extra,
            not_of_rank(last),
            of_rank(last),
            before[row],
            for_last[col],
        );
        let at = row * for_last.len() + col;
        assert(run_options(hand, low, n)[at].to_set() == extra.to_set());
    }
}

/// The list of ways to bring one rank up is complete.
pub proof fn lemma_smallest_for_rank(
    hand: Seq<Card>,
    size: nat,
    rank: Rank,
    extra: Seq<Card>,
    listed: Seq<Seq<Card>>,
)
    requires
        size <= 4,
        is_addition(hand, extra),
        held_of_rank(hand + extra, rank) >= size,
        extra.len() <= short_of(hand, size, rank),
        listed == options_for_rank(hand, size, rank),
    ensures
        exists|i: int| 0 <= i < listed.len() && (#[trigger] listed[i]).to_set() == extra.to_set(),
{
    lemma_held_bound(hand, extra, rank);
    lemma_all_of_rank(extra, rank);
    lemma_rank_addition_is_listed(hand, size, rank, extra);
    let i = choose|i: int|
        0 <= i < options_for_rank(hand, size, rank).len() && (#[trigger] options_for_rank(
            hand,
            size,
            rank,
        )[i]).to_set() == extra.to_set();
    assert(listed[i].to_set() == extra.to_set());
}

/// The joined list of ways to bring two different ranks up is complete.
pub proof fn lemma_smallest_for_two_ranks(
    hand: Seq<Card>,
    first_size: nat,
    first_rank: Rank,
    second_size: nat,
    second_rank: Rank,
    extra: Seq<Card>,
    listed: Seq<Seq<Card>>,
)
    requires
        first_size <= 4,
        second_size <= 4,
        first_rank != second_rank,
        is_addition(hand, extra),
        held_of_rank(hand + extra, first_rank) >= first_size,
        held_of_rank(hand + extra, second_rank) >= second_size,
        extra.len() <= short_of(hand, first_size, first_rank) + short_of(
            hand,
            second_size,
            second_rank,
        ),
        listed == joined(
            options_for_rank(hand, first_size, first_rank),
            options_for_rank(hand, second_size, second_rank),
        ),
    ensures
        exists|i: int| 0 <= i < listed.len() && (#[trigger] listed[i]).to_set() == extra.to_set(),
{
    lemma_held_bound(hand, extra, first_rank);
    lemma_held_bound(hand, extra, second_rank);
    lemma_two_ranks_bound(extra, first_rank, second_rank);
    lemma_two_rank_addition_is_listed(
        hand,
        first_size,
        first_rank,
        second_size,
        second_rank,
        extra,
    );
    let first = options_for_rank(hand, first_size, first_rank);
    let second = options_for_rank(hand, second_size, second_rank);
    let i = choose|i: int|
        0 <= i < joined(first, second).len() && (#[trigger] joined(first, second)[i]).to_set()
            == extra.to_set();
    assert(listed[i].to_set() == extra.to_set());
}

/// The list of ways to complete a run of five ranks is complete.
pub proof fn lemma_smallest_for_run(
    hand: Seq<Card>,
    low: int,
    extra: Seq<Card>,
    listed: Seq<Seq<Card>>,
)
    requires
        2 <= low <= 10,
        is_addition(hand, extra),
        forall|rank: Rank|
            low <= rank.value() < low + 5 ==> #[trigger] held_of_rank(hand + extra, rank) >= 1,
        extra.len() <= run_shortfall(hand, low, 5),
        listed == run_options(hand, low, 5),
    ensures
        exists|i: int| 0 <= i < listed.len() && (#[trigger] listed[i]).to_set() == extra.to_set(),
{
    assert forall|rank: Rank| low <= rank.value() < low + 5 implies #[trigger] cards_of_rank(
        extra,
        rank,
    ) >= short_of(hand, 1, rank) by {
        assert(held_of_rank(hand + extra, rank) >= 1);
        lemma_held_bound(hand, extra, rank);
    }
    lemma_run_count_bound(extra, low, 5);
    lemma_run_counts_are_exact(hand, extra, low, 5);
    lemma_all_of_run(extra, low, 5);
    lemma_run_addition_is_listed(hand, low, 5, extra);
    let i = choose|i: int|
        0 <= i < run_options(hand, low, 5).len() && (#[trigger] run_options(
            hand,
            low,
            5,
        )[i]).to_set() == extra.to_set();
    assert(listed[i].to_set() == extra.to_set());
}

/// The list of `options` is complete: cards that the hand lacks, none of
/// them twice, with which it satisfies the value, and which are no more
/// than it is short of, are the cards of one of the ways of `options`.
pub proof fn lemma_smallest_additions_are_listed(
    hand: Seq<Card>,
    value: HandValue,
    extra: Seq<Card>,
)
    requires
        value.wf(),
        is_addition(hand, extra),
        holds(hand + extra, value),
        extra.len() <= shortfall(hand, value),
    ensures
        exists|i: int|
            0 <= i < options(hand, value).len() && (#[trigger] options(hand, value)[i]).to_set()
                == extra.to_set(),
{
    let listed = options(hand, value);
    match value {
        HandValue::HighCard(rank) => lemma_smallest_for_rank(hand, 1, rank, extra, listed),
        HandValue::OnePair(rank) => lemma_smallest_for_rank(hand, 2, rank, extra, listed),
        HandValue::ThreeOfAKind(rank) => lemma_smallest_for_rank(hand, 3, rank, extra, listed),
        HandValue::FourOfAKind(rank) => lemma_smallest_for_rank(hand, 4, rank, extra, listed),
        HandValue::TwoPair(two_pair) => {
            TwoPair::lemma_determined(two_pair, two_pair);
            lemma_smallest_for_two_ranks(
                hand,
                2,
                two_pair.top(),
                2,
                two_pair.bottom(),
                extra,
                listed,
            );
        },
        HandValue::FullHouse(full_house) => {
            FullHouse::lemma_determined(
                full_house,
                full_house,
                full_house.triple_rank(),
                full_house.pair_rank(),
            );
            lemma_smallest_for_two_ranks(
                hand,
                3,
                full_house.triple_rank(),
                2,
                full_house.pair_rank(),
                extra,
                listed,
            );
        },
        HandValue::Straight(top) => {
            crate::card::lemma_rank_values(top, top);
            lemma_smallest_for_run(hand, top.value() - 4, extra, listed);
        },
    }
}

} // verus!
