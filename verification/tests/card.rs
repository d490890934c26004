use commune::card::{Card, LineNumber, Rank, Suit};

#[test]
fn display_suit() {
    let suit = Suit::Hearts;
    assert_eq!("♥", format!("{}", suit.to_string()));
}

#[test]
fn display_rank() {
    let suit = Rank::Queen;
    assert_eq!("Q", format!("{}", suit.to_string()));
}

#[test]
fn card_ordering() {
    let card1 = Card {
        rank: Rank::Three,
        suit: Suit::Diamonds,
    };
    let card2 = Card {
        rank: Rank::Jack,
        suit: Suit::Clubs,
    };
    assert!(card1 < card2);
}

#[test]
fn all_suits() {
    let mut cards = Card::get_all_with_suit(Suit::Hearts);
    let initial_len = cards.len();
    cards.sort_by(|a, b| a.partial_cmp(b).unwrap());
    cards.dedup();
    assert_eq!(initial_len, cards.len());
}

#[test]
fn all_ranks() {
    let mut cards = Card::get_all_with_rank(Rank::Ace);
    let initial_len = cards.len();
    cards.sort_by(|a, b| a.partial_cmp(b).unwrap());
    cards.dedup();
    assert_eq!(initial_len, cards.len());
}

#[test]
fn rank_numbers_round_trip() {
    for num in 0..=255u8 {
        match Rank::from_u8(num) {
            Some(rank) => {
                assert!((2..=14).contains(&num));
                assert_eq!(num, rank.to_u8());
            }
            None => assert!(num < 2 || num > 14),
        }
    }
    assert_eq!(Some(Rank::Two), Rank::from_u8(2));
    assert_eq!(Some(Rank::Ten), Rank::from_u8(10));
    assert_eq!(Some(Rank::Ace), Rank::from_u8(14));
    assert_eq!(None, Rank::from_u8(1));
    assert_eq!(None, Rank::from_u8(15));
}

#[test]
fn rank_numbers_keep_the_order() {
    let ranks = Rank::all();
    assert_eq!(13, ranks.len());
    for pair in ranks.windows(2) {
        assert!(pair[0] < pair[1]);
        assert_eq!(pair[0].to_u8() + 1, pair[1].to_u8());
    }
    assert!(Rank::Two < Rank::Ace);
    assert!(Rank::King > Rank::Queen);
    assert!(!(Rank::Six < Rank::Six));
}

#[test]
fn rank_tokens_round_trip() {
    let tokens = ["2", "3", "4", "5", "6", "7", "8", "9", "10", "J", "Q", "K", "A"];
    let ranks = Rank::all();
    for (token, rank) in tokens.iter().zip(ranks.iter()) {
        assert_eq!(Some(*rank), Rank::from_str(token));
        assert_eq!(*token, rank.to_string());
    }
}

#[test]
fn rank_tokens_unknown() {
    assert_eq!(None, Rank::from_str(""));
    assert_eq!(None, Rank::from_str("1"));
    assert_eq!(None, Rank::from_str("11"));
    assert_eq!(None, Rank::from_str("j"));
    assert_eq!(None, Rank::from_str(" A"));
    assert_eq!(None, Rank::from_str("10 "));
    assert_eq!(None, Rank::from_str("Ace"));
}

#[test]
fn suit_symbols() {
    assert_eq!("♣", Suit::Clubs.to_string());
    assert_eq!("♠", Suit::Spades.to_string());
    assert_eq!("♥", Suit::Hearts.to_string());
    assert_eq!("♦", Suit::Diamonds.to_string());
    assert_eq!(
        vec![Suit::Clubs, Suit::Spades, Suit::Hearts, Suit::Diamonds],
        Suit::all()
    );
}

#[test]
fn cards_of_equal_rank_compare_equal_but_differ() {
    let spade = Card {
        rank: Rank::Nine,
        suit: Suit::Spades,
    };
    let heart = Card {
        rank: Rank::Nine,
        suit: Suit::Hearts,
    };
    assert_eq!(Some(std::cmp::Ordering::Equal), spade.partial_cmp(&heart));
    assert!(!(spade < heart));
    assert!(!(spade > heart));
    assert_ne!(spade, heart);
}

#[test]
fn cards_with_rank_in_suit_order() {
    let cards = Card::get_all_with_rank(Rank::Ten);
    let suits: Vec<Suit> = cards.iter().map(|card| card.suit).collect();
    assert_eq!(Suit::all(), suits);
    assert!(cards.iter().all(|card| card.rank == Rank::Ten));
}

#[test]
fn cards_with_suit_in_rank_order() {
    let cards = Card::get_all_with_suit(Suit::Spades);
    let ranks: Vec<Rank> = cards.iter().map(|card| card.rank).collect();
    assert_eq!(Rank::all(), ranks);
    assert!(cards.iter().all(|card| card.suit == Suit::Spades));
}

#[test]
fn card_lines() {
    let queen = Card {
        rank: Rank::Queen,
        suit: Suit::Hearts,
    };
    assert_eq!("+-----+", queen.to_single_string(LineNumber::Zero));
    assert_eq!("|Q ♥  |", queen.to_single_string(LineNumber::One));
    assert_eq!("|  ♥  |", queen.to_single_string(LineNumber::Two));
    assert_eq!("|  ♥ Q|", queen.to_single_string(LineNumber::Three));
    assert_eq!("+-----+", queen.to_single_string(LineNumber::Four));
}

#[test]
fn card_lines_of_a_ten() {
    let ten = Card {
        rank: Rank::Ten,
        suit: Suit::Clubs,
    };
    assert_eq!("|10♣  |", ten.to_single_string(LineNumber::One));
    assert_eq!("|  ♣  |", ten.to_single_string(LineNumber::Two));
    assert_eq!("|  ♣10|", ten.to_single_string(LineNumber::Three));
}

#[test]
fn card_drawing() {
    let ace = Card {
        rank: Rank::Ace,
        suit: Suit::Spades,
    };
    assert_eq!(
        "+-----+\n|A ♠  |\n|  ♠  |\n|  ♠ A|\n+-----+",
        ace.to_string()
    );
    assert_eq!(
        [
            LineNumber::Zero,
            LineNumber::One,
            LineNumber::Two,
            LineNumber::Three,
            LineNumber::Four
        ],
        LineNumber::lines()
    );
}
