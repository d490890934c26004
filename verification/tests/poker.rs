use commune::card::{Card, Rank, Suit};
use commune::poker::{Commune, Deck, FullHouse, Hand, HandValue, PokerError, TwoPair};
use std::collections::HashSet;

fn default_commune() -> Commune {
    Commune {
        cards: vec![
            Card {
                rank: Rank::Queen,
                suit: Suit::Spades,
            },
            Card {
                rank: Rank::Queen,
                suit: Suit::Hearts,
            },
            Card {
                rank: Rank::Queen,
                suit: Suit::Clubs,
            },
            Card {
                rank: Rank::Queen,
                suit: Suit::Diamonds,
            },
            Card {
                rank: Rank::Jack,
                suit: Suit::Diamonds,
            },
            Card {
                rank: Rank::Ten,
                suit: Suit::Spades,
            },
            Card {
                rank: Rank::Nine,
                suit: Suit::Clubs,
            },
            Card {
                rank: Rank::Nine,
                suit: Suit::Diamonds,
            },
            Card {
                rank: Rank::Eight,
                suit: Suit::Hearts,
            },
            Card {
                rank: Rank::Three,
                suit: Suit::Spades,
            },
        ],
    }
}

fn as_set(cards: &Vec<Card>) -> HashSet<Card> {
    cards.iter().copied().collect()
}

#[test]
fn invalid_two_pair() {
    let res = TwoPair::new(Rank::Three, Rank::Three);
    assert!(res.is_err());
}

#[test]
fn all_possible_two_pairs() {
    let all_two_pairs = TwoPair::all_possible();
    assert_eq!(78, all_two_pairs.len());
}

#[test]
fn invalid_full_house() {
    let res = FullHouse::new(Rank::Queen, Rank::Queen);
    assert!(res.is_err());
}

#[test]
fn all_possible_full_house() {
    let all_full_house = FullHouse::all_possible();
    assert_eq!(156, all_full_house.len());
}

#[test]
fn all_possible_hand_value() {
    let all_hand_value = HandValue::all_possible();
    assert_eq!(299, all_hand_value.len());
}

#[test]
fn empty_hand() {
    let hand = Hand::empty_hand();
    assert_eq!(0, hand.cards.len());
}

#[test]
fn full_deck() {
    let deck = Deck::get_full_deck();
    assert_eq!(52, deck.cards().len());
}

#[test]
fn deal_cards_valid() {
    let mut deck = Deck::get_full_deck();
    let hand = deck.deal_cards(7).unwrap();
    assert_eq!(7, hand.cards.len());
    assert_eq!(52, hand.cards.len() + deck.cards().len());
}

#[test]
fn deal_cards_invalid() {
    let mut deck = Deck::get_full_deck();
    let _ = deck.deal_cards(40).unwrap();
    let should_be_error = deck.deal_cards(40);
    assert!(should_be_error.is_err());
}

#[test]
fn contains_hand_value_pairs_triples() {
    let commune = default_commune();
    assert!(commune.contains_hand_value(HandValue::FullHouse(
        FullHouse::new(Rank::Queen, Rank::Nine).unwrap()
    )));
    assert!(!commune.contains_hand_value(HandValue::ThreeOfAKind(Rank::Nine)));
}

#[test]
fn contains_hand_value_straight() {
    let commune = default_commune();
    assert!(commune.contains_hand_value(HandValue::Straight(Rank::Queen)));
    assert!(!commune.contains_hand_value(HandValue::Straight(Rank::Eight)));
    assert!(!commune.contains_hand_value(HandValue::Straight(Rank::King)));
}

#[test]
fn get_needed_cards_for_hand_value_none_needed() {
    let hand = Hand {
        cards: Card::get_all_with_rank(Rank::Ace),
    };
    let empty: Vec<Vec<Card>> = vec![];
    assert_eq!(
        empty,
        hand.get_needed_cards_for_hand_value(HandValue::FourOfAKind(Rank::Ace))
    );
}

#[test]
fn get_needed_cards_for_hand_value_rank() {
    let rank = Rank::Queen;
    let hand = Hand {
        cards: vec![Card {
            suit: Suit::Clubs,
            rank,
        }],
    };
    let mut first_combination = HashSet::new();
    first_combination.insert(Card {
        suit: Suit::Diamonds,
        rank,
    });
    first_combination.insert(Card {
        suit: Suit::Hearts,
        rank,
    });

    let mut second_combination = HashSet::new();
    second_combination.insert(Card {
        suit: Suit::Diamonds,
        rank,
    });
    second_combination.insert(Card {
        suit: Suit::Spades,
        rank,
    });

    let mut third_combination = HashSet::new();
    third_combination.insert(Card {
        suit: Suit::Hearts,
        rank,
    });
    third_combination.insert(Card {
        suit: Suit::Spades,
        rank,
    });

    let actual: Vec<HashSet<Card>> = hand
        .get_needed_cards_for_hand_value(HandValue::ThreeOfAKind(rank))
        .iter()
        .map(as_set)
        .collect();
    assert_eq!(3, actual.len());
    assert!(actual.contains(&first_combination));
    assert!(actual.contains(&second_combination));
    assert!(actual.contains(&third_combination));
}

#[test]
fn get_needed_cards_for_hand_value_straight() {
    let hand = Hand {
        cards: vec![
            Card {
                suit: Suit::Diamonds,
                rank: Rank::Two,
            },
            Card {
                suit: Suit::Hearts,
                rank: Rank::Three,
            },
            Card {
                suit: Suit::Spades,
                rank: Rank::Four,
            },
        ],
    };
    let mut expected: Vec<HashSet<Card>> = Vec::new();
    for rank_five in Card::get_all_with_rank(Rank::Five) {
        for rank_six in Card::get_all_with_rank(Rank::Six) {
            let mut set = HashSet::new();
            set.insert(rank_five);
            set.insert(rank_six);
            expected.push(set);
        }
    }
    let actual: Vec<HashSet<Card>> = hand
        .get_needed_cards_for_hand_value(HandValue::Straight(Rank::Six))
        .iter()
        .map(as_set)
        .collect();

    assert_eq!(expected.len(), actual.len());
    assert!(actual.iter().all(|cards| expected.contains(cards)));
}

#[test]
fn two_pair_puts_the_higher_rank_on_top() {
    let given_high_first = TwoPair::new(Rank::King, Rank::Four).unwrap();
    let given_low_first = TwoPair::new(Rank::Four, Rank::King).unwrap();
    assert_eq!(Rank::King, given_high_first.get_top_rank());
    assert_eq!(Rank::Four, given_high_first.get_bottom_rank());
    assert_eq!(given_high_first, given_low_first);
}

#[test]
fn two_pair_refuses_every_equal_pair() {
    for rank in Rank::all() {
        match TwoPair::new(rank, rank) {
            Err(PokerError::InvalidArguments(text)) => {
                assert_eq!("Top rank and bottom rank cannot be equal.", text)
            }
            _ => panic!("equal ranks were accepted"),
        }
    }
}

#[test]
fn full_house_keeps_the_roles() {
    let full_house = FullHouse::new(Rank::Two, Rank::Ace).unwrap();
    assert_eq!(Rank::Two, full_house.get_triple());
    assert_eq!(Rank::Ace, full_house.get_pair());
    assert_ne!(full_house, FullHouse::new(Rank::Ace, Rank::Two).unwrap());
}

#[test]
fn full_house_refuses_every_equal_pair() {
    for rank in Rank::all() {
        match FullHouse::new(rank, rank) {
            Err(PokerError::InvalidArguments(text)) => {
                assert_eq!("Top rank and bottom rank cannot be equal.", text)
            }
            _ => panic!("equal ranks were accepted"),
        }
    }
}

#[test]
fn all_two_pairs_are_distinct_and_ordered() {
    let all = TwoPair::all_possible();
    let distinct: HashSet<TwoPair> = all.iter().copied().collect();
    assert_eq!(78, distinct.len());
    assert!(all
        .iter()
        .all(|two_pair| two_pair.get_top_rank() > two_pair.get_bottom_rank()));
    assert_eq!(TwoPair::new(Rank::Three, Rank::Two).unwrap(), all[0]);
    assert_eq!(TwoPair::new(Rank::Four, Rank::Two).unwrap(), all[1]);
    assert_eq!(TwoPair::new(Rank::Four, Rank::Three).unwrap(), all[2]);
    assert_eq!(TwoPair::new(Rank::Ace, Rank::King).unwrap(), all[77]);
    assert!(all.windows(2).all(|pair| pair[0] < pair[1]));
}

#[test]
fn all_full_houses_are_distinct_and_ordered() {
    let all = FullHouse::all_possible();
    let distinct: HashSet<FullHouse> = all.iter().copied().collect();
    assert_eq!(156, distinct.len());
    assert!(all
        .iter()
        .all(|full_house| full_house.get_triple() != full_house.get_pair()));
    assert_eq!(FullHouse::new(Rank::Two, Rank::Three).unwrap(), all[0]);
    assert_eq!(FullHouse::new(Rank::Two, Rank::Ace).unwrap(), all[11]);
    assert_eq!(FullHouse::new(Rank::Three, Rank::Two).unwrap(), all[12]);
    assert_eq!(FullHouse::new(Rank::Ace, Rank::King).unwrap(), all[155]);
    assert!(all.windows(2).all(|pair| pair[0] < pair[1]));
}

#[test]
fn all_hand_values_by_group() {
    let all = HandValue::all_possible();
    assert_eq!(299, all.len());
    assert_eq!(HandValue::HighCard(Rank::Two), all[0]);
    assert_eq!(HandValue::HighCard(Rank::Ace), all[12]);
    assert_eq!(HandValue::OnePair(Rank::Two), all[13]);
    assert_eq!(
        HandValue::TwoPair(TwoPair::new(Rank::Three, Rank::Two).unwrap()),
        all[26]
    );
    assert_eq!(HandValue::ThreeOfAKind(Rank::Two), all[104]);
    assert_eq!(HandValue::Straight(Rank::Two), all[117]);
    assert_eq!(HandValue::Straight(Rank::Five), all[120]);
    assert_eq!(
        HandValue::FullHouse(FullHouse::new(Rank::Two, Rank::Three).unwrap()),
        all[130]
    );
    assert_eq!(HandValue::FourOfAKind(Rank::Two), all[286]);
    assert_eq!(HandValue::FourOfAKind(Rank::Ace), all[298]);
    let distinct: HashSet<HandValue> = all.iter().copied().collect();
    assert_eq!(299, distinct.len());
    assert_eq!(all, HandValue::all_possible());
}

#[test]
fn full_deck_holds_every_card_once() {
    let deck = Deck::get_full_deck();
    let distinct: HashSet<Card> = deck.cards().iter().copied().collect();
    assert_eq!(52, distinct.len());
    for suit in Suit::all() {
        for rank in Rank::all() {
            assert!(distinct.contains(&Card { suit, rank }));
        }
    }
    assert_eq!(52, Deck::full_deck_size());
}

#[test]
fn full_deck_is_shuffled() {
    let mut ordered: Vec<Card> = Vec::new();
    for suit in Suit::all() {
        for rank in Rank::all() {
            ordered.push(Card { suit, rank });
        }
    }
    let first = Deck::get_full_deck();
    let second = Deck::get_full_deck();
    assert!(first.cards() != &ordered || second.cards() != &ordered);
}

#[test]
fn deal_takes_the_last_cards() {
    let mut deck = Deck::get_full_deck();
    let before = deck.cards().clone();
    let hand = deck.deal_cards(5).unwrap();
    assert_eq!(before[47..].to_vec(), hand.cards);
    assert_eq!(&before[..47].to_vec(), deck.cards());
    let mut together = deck.cards().clone();
    together.extend(hand.cards.iter().copied());
    assert_eq!(before, together);
    let distinct: HashSet<Card> = together.iter().copied().collect();
    assert_eq!(52, distinct.len());
}

#[test]
fn deal_all_and_none() {
    let mut deck = Deck::get_full_deck();
    let none = deck.deal_cards(0).unwrap();
    assert_eq!(0, none.cards.len());
    assert_eq!(52, deck.cards().len());
    let all = deck.deal_cards(52).unwrap();
    assert_eq!(52, all.cards.len());
    assert_eq!(0, deck.cards().len());
    assert!(deck.deal_cards(1).is_err());
    assert_eq!(0, deck.deal_cards(0).unwrap().cards.len());
}

#[test]
fn deal_too_many_leaves_the_deck() {
    let mut deck = Deck::get_full_deck();
    let before = deck.cards().clone();
    match deck.deal_cards(53) {
        Err(PokerError::NotEnoughCards(text)) => {
            assert_eq!("Tried to deal more cards than in deck.", text)
        }
        _ => panic!("dealt more cards than the deck holds"),
    }
    assert_eq!(&before, deck.cards());
    let _ = deck.deal_cards(30).unwrap();
    assert!(deck.deal_cards(23).is_err());
    assert_eq!(22, deck.cards().len());
    assert!(deck.deal_cards(22).is_ok());
}

#[test]
fn contains_counts_cards_of_a_rank() {
    let commune = default_commune();
    assert!(commune.contains_x_cards_of_rank(4, Rank::Queen));
    assert!(commune.contains_x_cards_of_rank(2, Rank::Nine));
    assert!(!commune.contains_x_cards_of_rank(3, Rank::Nine));
    assert!(commune.contains_x_cards_of_rank(1, Rank::Three));
    assert!(!commune.contains_x_cards_of_rank(1, Rank::Ace));
    assert!(commune.contains_x_cards_of_rank(0, Rank::Ace));
    assert!(!commune.contains_x_cards_of_rank(5, Rank::Queen));
}

#[test]
fn contains_counts_a_repeated_card_once() {
    let nine = Card {
        rank: Rank::Nine,
        suit: Suit::Clubs,
    };
    let commune = Commune {
        cards: vec![nine, nine, nine],
    };
    assert!(commune.contains_hand_value(HandValue::HighCard(Rank::Nine)));
    assert!(!commune.contains_hand_value(HandValue::OnePair(Rank::Nine)));
}

#[test]
fn contains_every_category() {
    let commune = default_commune();
    assert!(commune.contains_hand_value(HandValue::HighCard(Rank::Three)));
    assert!(!commune.contains_hand_value(HandValue::HighCard(Rank::Two)));
    assert!(commune.contains_hand_value(HandValue::OnePair(Rank::Nine)));
    assert!(!commune.contains_hand_value(HandValue::OnePair(Rank::Jack)));
    assert!(commune.contains_hand_value(HandValue::TwoPair(
        TwoPair::new(Rank::Nine, Rank::Queen).unwrap()
    )));
    assert!(!commune.contains_hand_value(HandValue::TwoPair(
        TwoPair::new(Rank::Queen, Rank::Jack).unwrap()
    )));
    assert!(commune.contains_hand_value(HandValue::ThreeOfAKind(Rank::Queen)));
    assert!(commune.contains_hand_value(HandValue::FourOfAKind(Rank::Queen)));
    assert!(!commune.contains_hand_value(HandValue::FourOfAKind(Rank::Nine)));
    assert!(!commune.contains_hand_value(HandValue::FullHouse(
        FullHouse::new(Rank::Nine, Rank::Queen).unwrap()
    )));
}

#[test]
fn straight_has_no_low_ace() {
    let mut cards: Vec<Card> = Vec::new();
    for suit in Suit::all() {
        for rank in [Rank::Ace, Rank::Two, Rank::Three, Rank::Four, Rank::Five] {
            cards.push(Card { suit, rank });
        }
    }
    let commune = Commune { cards };
    for top in [Rank::Two, Rank::Three, Rank::Four, Rank::Five] {
        assert!(!commune.contains_hand_value(HandValue::Straight(top)));
    }
    assert!(!commune.contains_hand_value(HandValue::Straight(Rank::Six)));
    assert!(!commune.contains_hand_value(HandValue::Straight(Rank::Ace)));
}

#[test]
fn straight_at_both_ends() {
    let low = Commune {
        cards: [Rank::Two, Rank::Three, Rank::Four, Rank::Five, Rank::Six]
            .iter()
            .map(|rank| Card {
                suit: Suit::Hearts,
                rank: *rank,
            })
            .collect(),
    };
    assert!(low.contains_hand_value(HandValue::Straight(Rank::Six)));
    assert!(!low.contains_hand_value(HandValue::Straight(Rank::Seven)));
    let high = Commune {
        cards: [Rank::Ten, Rank::Jack, Rank::Queen, Rank::King, Rank::Ace]
            .iter()
            .map(|rank| Card {
                suit: Suit::Clubs,
                rank: *rank,
            })
            .collect(),
    };
    assert!(high.contains_hand_value(HandValue::Straight(Rank::Ace)));
    assert!(!high.contains_hand_value(HandValue::Straight(Rank::King)));
}

#[test]
fn needed_cards_for_a_rank() {
    let rank = Rank::Queen;
    let hand = Hand {
        cards: vec![Card {
            suit: Suit::Clubs,
            rank,
        }],
    };
    let spade = Card {
        suit: Suit::Spades,
        rank,
    };
    let heart = Card {
        suit: Suit::Hearts,
        rank,
    };
    let diamond = Card {
        suit: Suit::Diamonds,
        rank,
    };
    assert_eq!(
        vec![vec![spade, heart], vec![spade, diamond], vec![heart, diamond]],
        hand.get_needed_cards_for_rank_hand(3, rank)
    );
    assert_eq!(
        vec![vec![spade, heart, diamond]],
        hand.get_needed_cards_for_rank_hand(4, rank)
    );
    assert_eq!(
        vec![vec![spade], vec![heart], vec![diamond]],
        hand.get_needed_cards_for_rank_hand(2, rank)
    );
    let empty: Vec<Vec<Card>> = vec![];
    assert_eq!(empty, hand.get_needed_cards_for_rank_hand(1, rank));
    assert_eq!(empty, hand.get_needed_cards_for_rank_hand(0, rank));
    assert_eq!(empty, hand.get_needed_cards_for_rank_hand(5, rank));
}

#[test]
fn needed_cards_for_two_ranks() {
    let hand = Hand {
        cards: vec![
            Card {
                suit: Suit::Clubs,
                rank: Rank::King,
            },
            Card {
                suit: Suit::Spades,
                rank: Rank::King,
            },
            Card {
                suit: Suit::Diamonds,
                rank: Rank::Five,
            },
        ],
    };
    let two_pair = HandValue::TwoPair(TwoPair::new(Rank::Five, Rank::King).unwrap());
    let five = |suit| Card {
        suit,
        rank: Rank::Five,
    };
    assert_eq!(
        vec![
            vec![five(Suit::Clubs)],
            vec![five(Suit::Spades)],
            vec![five(Suit::Hearts)]
        ],
        hand.get_needed_cards_for_hand_value(two_pair)
    );
    let full_house = HandValue::FullHouse(FullHouse::new(Rank::King, Rank::Five).unwrap());
    let king = |suit| Card {
        suit,
        rank: Rank::King,
    };
    assert_eq!(
        vec![
            vec![king(Suit::Hearts), five(Suit::Clubs)],
            vec![king(Suit::Hearts), five(Suit::Spades)],
            vec![king(Suit::Hearts), five(Suit::Hearts)],
            vec![king(Suit::Diamonds), five(Suit::Clubs)],
            vec![king(Suit::Diamonds), five(Suit::Spades)],
            vec![king(Suit::Diamonds), five(Suit::Hearts)],
        ],
        hand.get_needed_cards_for_hand_value(full_house)
    );
}

#[test]
fn needed_cards_complete_the_hand() {
    let hand = Hand {
        cards: vec![
            Card {
                suit: Suit::Clubs,
                rank: Rank::Seven,
            },
            Card {
                suit: Suit::Hearts,
                rank: Rank::Nine,
            },
        ],
    };
    for value in HandValue::all_possible() {
        let needed = hand.get_needed_cards_for_hand_value(value);
        let size = needed.first().map(|set| set.len());
        for set in &needed {
            assert_eq!(size, Some(set.len()));
            assert!(!set.is_empty());
            assert!(set.iter().all(|card| !hand.cards.contains(card)));
            let mut cards = hand.cards.clone();
            cards.extend(set.iter().copied());
            assert!(Commune { cards }.contains_hand_value(value));
        }
    }
}

#[test]
fn needed_cards_for_a_straight_that_cannot_be() {
    let hand = Hand::empty_hand();
    let empty: Vec<Vec<Card>> = vec![];
    for top in [Rank::Two, Rank::Three, Rank::Four, Rank::Five] {
        assert_eq!(
            empty,
            hand.get_needed_cards_for_hand_value(HandValue::Straight(top))
        );
    }
    assert_eq!(
        1024,
        hand.get_needed_cards_for_hand_value(HandValue::Straight(Rank::Six))
            .len()
    );
}

#[test]
fn partial_factorial() {
    assert_eq!(20, Hand::permutation(5, 2));
    assert_eq!(9_480_240, Hand::permutation(57, 4));
}

#[test]
fn permutation_at_the_edges() {
    assert_eq!(1, Hand::permutation(0, 0));
    assert_eq!(1, Hand::permutation(52, 0));
    assert_eq!(52, Hand::permutation(52, 1));
    assert_eq!(120, Hand::permutation(5, 5));
    assert_eq!(0, Hand::permutation(5, 6));
    assert_eq!(0, Hand::permutation(0, 3));
    assert_eq!(311_875_200, Hand::permutation(52, 5));
}

#[test]
fn checked_permutation_tells_when_it_does_not_fit() {
    assert_eq!(Some(20), Hand::checked_permutation(5, 2));
    assert_eq!(Some(0), Hand::checked_permutation(3, 4));
    assert_eq!(Some(1), Hand::checked_permutation(usize::MAX, 0));
    assert_eq!(Some(usize::MAX), Hand::checked_permutation(usize::MAX, 1));
    assert_eq!(None, Hand::checked_permutation(usize::MAX, 2));
    assert_eq!(None, Hand::checked_permutation(100, 60));
    assert_eq!(
        Some(2_432_902_008_176_640_000),
        Hand::checked_permutation(20, 20)
    );
}

fn probability(odds: &Vec<(usize, usize)>) -> f64 {
    let none: f64 = odds
        .iter()
        .map(|(in_play, unseen)| 1.0 - *in_play as f64 / *unseen as f64)
        .product();
    1.0 - none
}

#[test]
fn calculate_hand_probability() {
    let hand = Hand {
        cards: vec![Card {
            suit: Suit::Clubs,
            rank: Rank::Ten,
        }],
    };
    let odds = hand.draw_odds(HandValue::ThreeOfAKind(Rank::Ten), 11);
    assert!((0.12390956 - probability(&odds)).abs() < 1.0e-6);
}

#[test]
fn probability_of_what_is_held_and_of_what_cannot_be() {
    let hand = Hand {
        cards: Card::get_all_with_rank(Rank::Four),
    };
    let held = hand.draw_odds(HandValue::FourOfAKind(Rank::Four), 7);
    assert_eq!(1.0, probability(&held));
    let never = hand.draw_odds(HandValue::Straight(Rank::Four), 7);
    assert_eq!(0.0, probability(&never));
    let nothing_in_play = hand.draw_odds(HandValue::OnePair(Rank::Ace), 0);
    assert_eq!(0.0, probability(&nothing_in_play));
    let all_in_play = hand.draw_odds(HandValue::OnePair(Rank::Ace), 48);
    assert_eq!(1.0, probability(&all_in_play));
}

#[test]
fn needed_cards_when_all_four_are_held() {
    let hand = Hand {
        cards: Card::get_all_with_rank(Rank::Four),
    };
    let empty: Vec<Vec<Card>> = vec![];
    assert_eq!(
        empty,
        hand.get_needed_cards_for_hand_value(HandValue::FourOfAKind(Rank::Four))
    );
}

#[test]
fn draw_odds_for_each_needed_set() {
    let hand = Hand {
        cards: vec![Card {
            suit: Suit::Clubs,
            rank: Rank::Ten,
        }],
    };
    assert_eq!(
        vec![(110, 2550), (110, 2550), (110, 2550)],
        hand.draw_odds(HandValue::ThreeOfAKind(Rank::Ten), 11)
    );
    assert_eq!(
        vec![(990, 124950)],
        hand.draw_odds(HandValue::FourOfAKind(Rank::Ten), 11)
    );
    assert_eq!(
        vec![(1, 1)],
        hand.draw_odds(HandValue::HighCard(Rank::Ten), 11)
    );
    let none: Vec<(usize, usize)> = vec![];
    assert_eq!(none, hand.draw_odds(HandValue::Straight(Rank::Five), 11));
    assert_eq!(
        vec![(0, 2550); 6],
        hand.draw_odds(HandValue::OnePair(Rank::Nine), 1)
    );
}

#[test]
fn odds_of_every_hand_value() {
    let hand = Hand {
        cards: vec![
            Card {
                suit: Suit::Clubs,
                rank: Rank::Ten,
            },
            Card {
                suit: Suit::Hearts,
                rank: Rank::Nine,
            },
        ],
    };
    let all = hand.calculate_hand_value_odds(11).unwrap();
    assert_eq!(299, all.len());
    for ((value, odds), expected) in all.iter().zip(HandValue::all_possible()) {
        assert_eq!(expected, *value);
        assert_eq!(&hand.draw_odds(expected, 11), odds);
        let chance = probability(odds);
        assert!((0.0..=1.0).contains(&chance));
    }
    assert_eq!((HandValue::HighCard(Rank::Nine), vec![(1, 1)]), all[7]);
    assert_eq!(
        (HandValue::OnePair(Rank::Ten), vec![(11, 50); 3]),
        all[13 + 8]
    );
}

#[test]
fn hand_drawing() {
    let hand = Hand {
        cards: vec![
            Card {
                suit: Suit::Hearts,
                rank: Rank::Queen,
            },
            Card {
                suit: Suit::Clubs,
                rank: Rank::Ten,
            },
        ],
    };
    assert_eq!(
        "+-----+ +-----+ \n\
         |Q ♥  | |10♣  | \n\
         |  ♥  | |  ♣  | \n\
         |  ♥ Q| |  ♣10| \n\
         +-----+ +-----+ \n",
        hand.to_string()
    );
    assert_eq!("\n\n\n\n\n", Hand::empty_hand().to_string());
}

#[test]
fn copies_hold_the_same_cards() {
    let commune = default_commune();
    assert_eq!(commune.cards, commune.clone().cards);
    let hand = Hand {
        cards: commune.cards.clone(),
    };
    assert_eq!(hand.cards, hand.clone().cards);
    let deck = Deck::get_full_deck();
    assert_eq!(deck.cards(), deck.clone().cards());
    let error = PokerError::NotEnoughCards("none left".to_string());
    match error.clone() {
        PokerError::NotEnoughCards(text) => assert_eq!("none left", text),
        _ => panic!("the copy is another error"),
    }
}

#[test]
fn bets_compare_by_category_then_ranks() {
    let all = HandValue::all_possible();
    for one in &all {
        for other in &all {
            assert_eq!(Some(one.cmp(other)), one.partial_cmp(other));
        }
    }
    assert!(HandValue::HighCard(Rank::Ace) < HandValue::OnePair(Rank::Two));
    assert!(HandValue::OnePair(Rank::Two) < HandValue::OnePair(Rank::Three));
    assert!(
        HandValue::OnePair(Rank::Ace)
            < HandValue::TwoPair(TwoPair::new(Rank::Three, Rank::Two).unwrap())
    );
    assert!(
        HandValue::TwoPair(TwoPair::new(Rank::Ace, Rank::King).unwrap())
            < HandValue::ThreeOfAKind(Rank::Two)
    );
    assert!(HandValue::ThreeOfAKind(Rank::Ace) < HandValue::Straight(Rank::Two));
    assert!(
        HandValue::Straight(Rank::Ace)
            < HandValue::FullHouse(FullHouse::new(Rank::Two, Rank::Three).unwrap())
    );
    assert!(
        HandValue::FullHouse(FullHouse::new(Rank::Ace, Rank::King).unwrap())
            < HandValue::FourOfAKind(Rank::Two)
    );
    assert!(
        TwoPair::new(Rank::Ten, Rank::Nine).unwrap() < TwoPair::new(Rank::Jack, Rank::Two).unwrap()
    );
    assert!(
        TwoPair::new(Rank::Ten, Rank::Eight).unwrap()
            < TwoPair::new(Rank::Ten, Rank::Nine).unwrap()
    );
    assert!(
        FullHouse::new(Rank::Two, Rank::Ace).unwrap()
            < FullHouse::new(Rank::Three, Rank::Two).unwrap()
    );
    for one in TwoPair::all_possible() {
        for other in TwoPair::all_possible() {
            assert_eq!(Some(one.cmp(&other)), one.partial_cmp(&other));
        }
    }
    for one in FullHouse::all_possible() {
        for other in FullHouse::all_possible() {
            assert_eq!(Some(one.cmp(&other)), one.partial_cmp(&other));
        }
    }
}

#[test]
fn deck_from_cards() {
    let ace = Card {
        suit: Suit::Spades,
        rank: Rank::Ace,
    };
    let two = Card {
        suit: Suit::Spades,
        rank: Rank::Two,
    };
    let mut deck = Deck::from_cards(vec![ace, two]).unwrap();
    assert_eq!(&vec![ace, two], deck.cards());
    assert_eq!(vec![two], deck.deal_cards(1).unwrap().cards);
    assert_eq!(&vec![ace], deck.cards());
    assert!(Deck::from_cards(vec![ace, two, ace]).is_none());
    assert!(Deck::from_cards(vec![two, two]).is_none());
    assert_eq!(0, Deck::from_cards(vec![]).unwrap().cards().len());
}

#[test]
fn picks_of_two_out_of_four() {
    let hand = Hand::empty_hand();
    let jack = |suit| Card {
        suit,
        rank: Rank::Jack,
    };
    assert_eq!(
        vec![
            vec![jack(Suit::Clubs), jack(Suit::Spades)],
            vec![jack(Suit::Clubs), jack(Suit::Hearts)],
            vec![jack(Suit::Clubs), jack(Suit::Diamonds)],
            vec![jack(Suit::Spades), jack(Suit::Hearts)],
            vec![jack(Suit::Spades), jack(Suit::Diamonds)],
            vec![jack(Suit::Hearts), jack(Suit::Diamonds)],
        ],
        hand.get_needed_cards_for_hand_value(HandValue::OnePair(Rank::Jack))
    );
    assert_eq!(
        4,
        hand.get_needed_cards_for_hand_value(HandValue::ThreeOfAKind(Rank::Jack))
            .len()
    );
    assert_eq!(
        vec![vec![
            jack(Suit::Clubs),
            jack(Suit::Spades),
            jack(Suit::Hearts),
            jack(Suit::Diamonds)
        ]],
        hand.get_needed_cards_for_hand_value(HandValue::FourOfAKind(Rank::Jack))
    );
}

#[test]
fn two_pairs_of_the_same_ranks_hash_alike() {
    let mut seen: HashSet<TwoPair> = HashSet::new();
    for high in Rank::all() {
        for low in Rank::all() {
            if high != low {
                seen.insert(TwoPair::new(high, low).unwrap());
                seen.insert(TwoPair::new(low, high).unwrap());
            }
        }
    }
    assert_eq!(78, seen.len());
    let mut both: HashSet<TwoPair> = HashSet::new();
    both.insert(TwoPair::new(Rank::Two, Rank::Ace).unwrap());
    both.insert(TwoPair::new(Rank::Ace, Rank::Two).unwrap());
    assert_eq!(1, both.len());
}

#[test]
fn odds_that_cannot_be_counted() {
    let one = Hand {
        cards: vec![Card {
            suit: Suit::Clubs,
            rank: Rank::Ten,
        }],
    };
    assert_eq!(
        Some(vec![(usize::MAX, 51); 4]),
        one.checked_draw_odds(HandValue::HighCard(Rank::Nine), usize::MAX)
    );
    assert_eq!(
        Some(vec![(1, 1)]),
        one.checked_draw_odds(HandValue::HighCard(Rank::Ten), usize::MAX)
    );
    assert_eq!(
        None,
        one.checked_draw_odds(HandValue::OnePair(Rank::Nine), usize::MAX)
    );
    assert_eq!(
        Some(vec![]),
        one.checked_draw_odds(HandValue::Straight(Rank::Three), usize::MAX)
    );
    assert_eq!(None, one.calculate_hand_value_odds(usize::MAX));
    assert_eq!(
        Some(one.draw_odds(HandValue::ThreeOfAKind(Rank::Ten), 11)),
        one.checked_draw_odds(HandValue::ThreeOfAKind(Rank::Ten), 11)
    );
    let mut cards: Vec<Card> = Vec::new();
    for suit in Suit::all() {
        cards.extend(Card::get_all_with_suit(suit));
    }
    let full = Hand {
        cards: cards.clone(),
    };
    assert_eq!(
        Some(vec![(1, 1)]),
        full.checked_draw_odds(HandValue::FourOfAKind(Rank::Two), 0)
    );
    cards.push(cards[0]);
    let too_many = Hand { cards };
    assert_eq!(
        None,
        too_many.checked_draw_odds(HandValue::FourOfAKind(Rank::Two), 0)
    );
    assert_eq!(None, too_many.calculate_hand_value_odds(0));
}
