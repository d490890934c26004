//! How two bets compare: by category first, and within a category by the
//! ranks that the bets name.

use crate::poker::FullHouse;
use crate::poker::HandValue;
use crate::poker::TwoPair;
use std::cmp::Ordering;
use vstd::prelude::*;
use vstd::std_specs::cmp::PartialOrdSpecImpl;

verus! {

/// How two keys compare.
pub open spec fn order_of_keys(a: int, b: int) -> Ordering {
    if a < b {
        Ordering::Less
    } else if a == b {
        Ordering::Equal
    } else {
        Ordering::Greater
    }
}

impl HandValue {
    /// The place of the category among the seven, the weakest first.
    pub open spec fn category(self) -> int {
        match self {
            HandValue::HighCard(_) => 0,
            HandValue::OnePair(_) => 1,
            HandValue::TwoPair(_) => 2,
            HandValue::ThreeOfAKind(_) => 3,
            HandValue::Straight(_) => 4,
            HandValue::FullHouse(_) => 5,
            HandValue::FourOfAKind(_) => 6,
        }
    }

    /// The place of the value among the values of its category: by rank,
    /// and for two ranks by the first and then the second.
    pub open spec fn key_in_category(self) -> int {
        match self {
            HandValue::HighCard(rank) => rank.value() - 2,
            HandValue::OnePair(rank) => rank.value() - 2,
            HandValue::TwoPair(two_pair) => two_pair.key(),
            HandValue::ThreeOfAKind(rank) => rank.value() - 2,
            HandValue::Straight(rank) => rank.value() - 2,
            HandValue::FullHouse(full_house) => full_house.key(),
            HandValue::FourOfAKind(rank) => rank.value() - 2,
        }
    }

    /// The place of the value among all values: a value of a stronger
    /// category comes after every value of a weaker one.
    pub open spec fn key(self) -> int {
        169 * self.category() + self.key_in_category()
    }
}

/// The key of two pairs for comparing.
fn two_pair_key(two_pair: &TwoPair) -> (key: u16)
    ensures
        key == two_pair.key(),
{
    let top: u16 = two_pair.get_top_rank().to_u8() as u16;
    let bottom: u16 = two_pair.get_bottom_rank().to_u8() as u16;
    proof {
        crate::card::lemma_rank_values(two_pair.top(), two_pair.bottom());
    }
    13 * (top - 2) + (bottom - 2)
}

/// The key of a full house for comparing.
fn full_house_key(full_house: &FullHouse) -> (key: u16)
    ensures
        key == full_house.key(),
{
    let triple: u16 = full_house.get_triple().to_u8() as u16;
    let pair: u16 = full_house.get_pair().to_u8() as u16;
    proof {
        crate::card::lemma_rank_values(full_house.triple_rank(), full_house.pair_rank());
    }
    13 * (triple - 2) + (pair - 2)
}

/// The key of a value for comparing.
fn hand_value_key(value: &HandValue) -> (key: u16)
    ensures
        key == value.key(),
{
    match value {
        HandValue::HighCard(rank) => (rank.to_u8() - 2) as u16,
        HandValue::OnePair(rank) => 169 + (rank.to_u8() - 2) as u16,
        HandValue::TwoPair(two_pair) => 338 + two_pair_key(two_pair),
        HandValue::ThreeOfAKind(rank) => 507 + (rank.to_u8() - 2) as u16,
        HandValue::Straight(rank) => 676 + (rank.to_u8() - 2) as u16,
        HandValue::FullHouse(full_house) => 845 + full_house_key(full_house),
        HandValue::FourOfAKind(rank) => 1014 + (rank.to_u8() - 2) as u16,
    }
}

/// How two keys compare.
fn compare_keys(a: u16, b: u16) -> (order: Ordering)
    ensures
        a < b ==> order == Ordering::Less,
        a == b ==> order == Ordering::Equal,
        a > b ==> order == Ordering::Greater,
{
    if a < b {
        Ordering::Less
    } else if a == b {
        Ordering::Equal
    } else {
        Ordering::Greater
    }
}

impl PartialOrd for TwoPair {
    fn partial_cmp(&self, other: &TwoPair) -> (order: Option<Ordering>) {
        Some(compare_keys(two_pair_key(self), two_pair_key(other)))
    }
}

impl PartialOrdSpecImpl for TwoPair {
    open spec fn obeys_partial_cmp_spec() -> bool {
        true
    }

    open spec fn partial_cmp_spec(&self, other: &TwoPair) -> Option<Ordering> {
        Some(order_of_keys(self.key(), other.key()))
    }
}

impl PartialOrd for FullHouse {
    fn partial_cmp(&self, other: &FullHouse) -> (order: Option<Ordering>) {
        Some(compare_keys(full_house_key(self), full_house_key(other)))
    }
}

impl PartialOrdSpecImpl for FullHouse {
    open spec fn obeys_partial_cmp_spec() -> bool {
        true
    }

    open spec fn partial_cmp_spec(&self, other: &FullHouse) -> Option<Ordering> {
        Some(order_of_keys(self.key(), other.key()))
    }
}

impl PartialOrd for HandValue {
    fn partial_cmp(&self, other: &HandValue) -> (order: Option<Ordering>) {
        Some(compare_keys(hand_value_key(self), hand_value_key(other)))
    }
}

impl PartialOrdSpecImpl for HandValue {
    open spec fn obeys_partial_cmp_spec() -> bool {
        true
    }

    open spec fn partial_cmp_spec(&self, other: &HandValue) -> Option<Ordering> {
        Some(order_of_keys(self.key(), other.key()))
    }
}

/// The keys tell all well-formed values apart and keep the categories
/// apart, so comparing by key is a total order: a bet of a stronger
/// category is above every bet of a weaker one, and two bets compare equal
/// only if they are the same bet.
pub proof fn lemma_keys_order_the_bets(a: HandValue, b: HandValue)
    ensures
        0 <= a.key_in_category() < 169,
        a.category() < b.category() ==> a.key() < b.key(),
        a.key() == b.key() ==> a == b,
{
    lemma_key_in_category(a);
    lemma_key_in_category(b);
    if a.key() == b.key() {
        assert(a.category() == b.category());
        match (a, b) {
            (HandValue::TwoPair(x), HandValue::TwoPair(y)) => {
                crate::card::lemma_rank_values(x.top(), y.top());
                crate::card::lemma_rank_values(x.bottom(), y.bottom());
                TwoPair::lemma_determined(x, y);
            },
            (HandValue::FullHouse(x), HandValue::FullHouse(y)) => {
                crate::card::lemma_rank_values(x.triple_rank(), y.triple_rank());
                crate::card::lemma_rank_values(x.pair_rank(), y.pair_rank());
                FullHouse::lemma_determined(x, y, x.triple_rank(), x.pair_rank());
            },
            (HandValue::HighCard(x), HandValue::HighCard(y)) => {
                crate::card::lemma_rank_values(x, y);
            },
            (HandValue::OnePair(x), HandValue::OnePair(y)) => {
                crate::card::lemma_rank_values(x, y);
            },
            (HandValue::ThreeOfAKind(x), HandValue::ThreeOfAKind(y)) => {
                crate::card::lemma_rank_values(x, y);
            },
            (HandValue::Straight(x), HandValue::Straight(y)) => {
                crate::card::lemma_rank_values(x, y);
            },
            (HandValue::FourOfAKind(x), HandValue::FourOfAKind(y)) => {
                crate::card::lemma_rank_values(x, y);
            },
            _ => {},
        }
    }
}

/// The key of a value within its category is one of 169 numbers.
pub proof fn lemma_key_in_category(a: HandValue)
    ensures
        0 <= a.key_in_category() < 169,
{
    match a {
        HandValue::TwoPair(x) => {
            crate::card::lemma_rank_values(x.top(), x.bottom());
        },
        HandValue::FullHouse(x) => {
            crate::card::lemma_rank_values(x.triple_rank(), x.pair_rank());
        },
        HandValue::HighCard(x) => {
            crate::card::lemma_rank_values(x, x);
        },
        HandValue::OnePair(x) => {
            crate::card::lemma_rank_values(x, x);
        },
        HandValue::ThreeOfAKind(x) => {
            crate::card::lemma_rank_values(x, x);
        },
        HandValue::Straight(x) => {
            crate::card::lemma_rank_values(x, x);
        },
        HandValue::FourOfAKind(x) => {
            crate::card::lemma_rank_values(x, x);
        },
    }
}

} // verus!
