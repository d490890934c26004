use commune::card::{Card, Rank, Suit};
use commune::game::{GameError, GameMove, GameState, Player};
use commune::poker::{Deck, Hand, HandValue, PokerError};
use std::collections::HashSet;

fn default_gamestate() -> GameState {
    GameState {
        players: vec![],
        current_turn: 0,
        current_bet: None,
        deck: Deck::get_full_deck(),
    }
}

#[test]
fn player_is_out() {
    let in_player = Player {
        name: 0,
        hand: Hand::empty_hand(),
        penalties: 1,
    };
    let out_player = Player {
        name: 0,
        hand: Hand::empty_hand(),
        penalties: 3,
    };
    assert!(!in_player.is_out());
    assert!(out_player.is_out());
}

#[test]
fn new_game() {
    let mut state = default_gamestate();
    state.create_new_game(3).unwrap();
    assert_eq!(3, state.players.len());
    assert!(state
        .players
        .iter()
        .all(|player| player.hand.cards.len() == 1));
}

#[test]
fn bet() {
    let mut state = default_gamestate();
    state.create_new_game(3).unwrap();
    state.current_turn = 2;
    state.process_bet(HandValue::ThreeOfAKind(Rank::Ten));
    assert_eq!(0, state.current_turn);
}

#[test]
fn gather_all_cards() {
    let mut state = default_gamestate();
    state.create_new_game(3).unwrap();
    let gathered_cards = state.gather_all_cards().cards;
    assert!(state
        .players
        .iter()
        .all(|player| gathered_cards.contains(&player.hand.cards[0])));
    assert_eq!(3, gathered_cards.len());
}

#[test]
fn unsuccessful_call() {
    let mut state = default_gamestate();
    state.create_new_game(3).unwrap();
    state.current_bet = Some(HandValue::FourOfAKind(Rank::Ace));
    let penalized_player = 2;
    state.process_call().unwrap();
    assert_eq!(2, state.players[penalized_player].hand.cards.len());
    assert_eq!(1, state.players[0].hand.cards.len());
    assert_eq!(1, state.players[1].hand.cards.len());
}

#[test]
fn successful_call() {
    let mut state = default_gamestate();
    state.create_new_game(3).unwrap();
    let existing_rank = state.players[0].hand.cards[0].rank;
    state.current_bet = Some(HandValue::HighCard(existing_rank));
    let penalized_player = 0;
    state.process_call().unwrap();
    assert_eq!(2, state.players[penalized_player].hand.cards.len());
    assert_eq!(1, state.players[1].hand.cards.len());
    assert_eq!(1, state.players[2].hand.cards.len());
}

#[test]
fn players_are_out_from_three_penalties() {
    for penalties in 0..=255u8 {
        let player = Player {
            name: 7,
            hand: Hand::empty_hand(),
            penalties,
        };
        assert_eq!(penalties >= 3, player.is_out());
    }
}

#[test]
fn init_game_seats_and_deals() {
    let state = GameState::init_game(4);
    assert_eq!(4, state.players.len());
    assert_eq!(0, state.current_turn);
    assert_eq!(None, state.current_bet);
    assert_eq!(48, state.deck.cards().len());
    let mut seen: HashSet<Card> = state.deck.cards().iter().copied().collect();
    for (place, player) in state.players.iter().enumerate() {
        assert_eq!(place, player.name as usize);
        assert_eq!(0, player.penalties);
        assert_eq!(1, player.hand.cards.len());
        seen.insert(player.hand.cards[0]);
    }
    assert_eq!(52, seen.len());
}

#[test]
fn init_game_with_more_players_than_cards() {
    let state = GameState::init_game(53);
    assert_eq!(0, state.players.len());
    assert_eq!(0, state.current_turn);
    assert_eq!(52, state.deck.cards().len());
    let full = GameState::init_game(52);
    assert_eq!(52, full.players.len());
    assert_eq!(0, full.deck.cards().len());
    let empty = GameState::init_game(0);
    assert_eq!(0, empty.players.len());
    assert_eq!(52, empty.deck.cards().len());
}

#[test]
fn new_game_with_too_many_players_changes_nothing() {
    let mut state = default_gamestate();
    state.create_new_game(2).unwrap();
    state.current_turn = 1;
    let cards_before = state.deck.cards().clone();
    match state.create_new_game(60) {
        Err(GameError::Poker(PokerError::NotEnoughCards(_))) => {}
        _ => panic!("sixty players were seated"),
    }
    assert_eq!(2, state.players.len());
    assert_eq!(1, state.current_turn);
    assert_eq!(&cards_before, state.deck.cards());
}

#[test]
fn first_deal_takes_cards_off_the_end() {
    let mut state = default_gamestate();
    let cards = state.deck.cards().clone();
    state.players = (0..3)
        .map(|name| Player {
            name,
            hand: Hand::empty_hand(),
            penalties: 0,
        })
        .collect();
    state.deal_hands().unwrap();
    assert_eq!(vec![cards[51]], state.players[0].hand.cards);
    assert_eq!(vec![cards[50]], state.players[1].hand.cards);
    assert_eq!(vec![cards[49]], state.players[2].hand.cards);
    assert_eq!(&cards[..49].to_vec(), state.deck.cards());
}

#[test]
fn deal_gives_a_card_more_than_penalties() {
    let mut state = default_gamestate();
    let cards = state.deck.cards().clone();
    state.players = vec![
        Player {
            name: 0,
            hand: Hand::empty_hand(),
            penalties: 2,
        },
        Player {
            name: 1,
            hand: Hand {
                cards: vec![Card {
                    suit: Suit::Clubs,
                    rank: Rank::Two,
                }],
            },
            penalties: 0,
        },
        Player {
            name: 2,
            hand: Hand::empty_hand(),
            penalties: 1,
        },
    ];
    state.deal_hands().unwrap();
    assert_eq!(cards[49..52].to_vec(), state.players[0].hand.cards);
    assert_eq!(cards[48..49].to_vec(), state.players[1].hand.cards);
    assert_eq!(cards[46..48].to_vec(), state.players[2].hand.cards);
    assert_eq!(46, state.deck.cards().len());
}

#[test]
fn deal_stops_where_the_deck_runs_out() {
    let mut state = default_gamestate();
    let _ = state.deck.deal_cards(49).unwrap();
    let cards = state.deck.cards().clone();
    state.players = (0..3)
        .map(|name| Player {
            name,
            hand: Hand::empty_hand(),
            penalties: 1,
        })
        .collect();
    match state.deal_hands() {
        Err(GameError::Poker(PokerError::NotEnoughCards(_))) => {}
        _ => panic!("dealt six cards out of three"),
    }
    assert_eq!(cards[1..3].to_vec(), state.players[0].hand.cards);
    assert_eq!(0, state.players[1].hand.cards.len());
    assert_eq!(0, state.players[2].hand.cards.len());
    assert_eq!(1, state.deck.cards().len());
}

#[test]
fn turn_goes_round() {
    let mut state = default_gamestate();
    state.create_new_game(3).unwrap();
    state.increment_turn();
    assert_eq!(1, state.current_turn);
    state.increment_turn();
    assert_eq!(2, state.current_turn);
    assert_eq!(1, state.get_previous_player());
    state.increment_turn();
    assert_eq!(0, state.current_turn);
    assert_eq!(2, state.get_previous_player());
}

#[test]
fn bet_is_kept() {
    let mut state = default_gamestate();
    state.create_new_game(2).unwrap();
    let value = HandValue::Straight(Rank::Nine);
    state.process_move(GameMove::Bet(value)).unwrap();
    assert_eq!(Some(value), state.current_bet);
    assert_eq!(1, state.current_turn);
}

#[test]
fn call_without_bet() {
    let mut state = default_gamestate();
    state.create_new_game(2).unwrap();
    let hands: Vec<Vec<Card>> = state
        .players
        .iter()
        .map(|player| player.hand.cards.clone())
        .collect();
    match state.process_move(GameMove::Call()) {
        Err(GameError::CallWithNoBet) => {}
        _ => panic!("a call was settled without a bet"),
    }
    let after: Vec<Vec<Card>> = state
        .players
        .iter()
        .map(|player| player.hand.cards.clone())
        .collect();
    assert_eq!(hands, after);
    assert_eq!(50, state.deck.cards().len());
}

#[test]
fn call_moves_the_turn_and_clears_the_bet() {
    let mut state = default_gamestate();
    state.create_new_game(3).unwrap();
    state
        .process_move(GameMove::Bet(HandValue::FourOfAKind(Rank::King)))
        .unwrap();
    assert_eq!(1, state.current_turn);
    state.process_move(GameMove::Call()).unwrap();
    assert_eq!(0, state.current_turn);
    assert_eq!(None, state.current_bet);
    assert_eq!(1, state.players[0].penalties);
    assert_eq!(2, state.players[0].hand.cards.len());
    assert_eq!(45, state.deck.cards().len());
}

#[test]
fn third_penalty_removes_the_player() {
    let mut state = default_gamestate();
    state.create_new_game(3).unwrap();
    state.players[1].penalties = 2;
    state.penalize_player(1);
    assert_eq!(2, state.players.len());
    assert_eq!(0, state.players[0].name);
    assert_eq!(2, state.players[1].name);
    state.penalize_player(0);
    assert_eq!(2, state.players.len());
    assert_eq!(1, state.players[0].penalties);
}

#[test]
fn gather_keeps_the_order_of_the_players() {
    let mut state = default_gamestate();
    state.create_new_game(3).unwrap();
    state.players[1].penalties = 1;
    state.deal_hands().unwrap();
    let mut expected: Vec<Card> = Vec::new();
    for player in &state.players {
        expected.extend(player.hand.cards.iter().copied());
    }
    assert_eq!(4, expected.len());
    assert_eq!(expected, state.gather_all_cards().cards);
}

#[test]
fn game_state_clone_is_equal() {
    let mut state = default_gamestate();
    state.create_new_game(3).unwrap();
    state.current_bet = Some(HandValue::OnePair(Rank::Two));
    let copy = state.clone();
    assert_eq!(state.current_turn, copy.current_turn);
    assert_eq!(state.current_bet, copy.current_bet);
    assert_eq!(state.deck.cards(), copy.deck.cards());
    assert_eq!(state.players.len(), copy.players.len());
    for (one, other) in state.players.iter().zip(copy.players.iter()) {
        assert_eq!(one.name, other.name);
        assert_eq!(one.penalties, other.penalties);
        assert_eq!(one.hand.cards, other.hand.cards);
    }
}

fn ordered_cards() -> Vec<Card> {
    let mut cards: Vec<Card> = Vec::new();
    for suit in Suit::all() {
        for rank in Rank::all() {
            cards.push(Card { suit, rank });
        }
    }
    cards
}

#[test]
fn new_game_from_a_known_deck() {
    let deck = Deck::from_cards(ordered_cards()).unwrap();
    let state = GameState::new_game_from_deck(3, deck).unwrap();
    let diamond = |rank| Card {
        suit: Suit::Diamonds,
        rank,
    };
    assert_eq!(vec![diamond(Rank::Ace)], state.players[0].hand.cards);
    assert_eq!(vec![diamond(Rank::King)], state.players[1].hand.cards);
    assert_eq!(vec![diamond(Rank::Queen)], state.players[2].hand.cards);
    assert_eq!(&ordered_cards()[..49].to_vec(), state.deck.cards());
    assert_eq!(0, state.current_turn);
    assert_eq!(None, state.current_bet);
}

#[test]
fn new_game_from_a_short_deck() {
    let cards = ordered_cards()[..2].to_vec();
    let deck = Deck::from_cards(cards).unwrap();
    match GameState::new_game_from_deck(3, deck) {
        Err(GameError::Poker(PokerError::NotEnoughCards(_))) => {}
        _ => panic!("three players were dealt from two cards"),
    }
    let deck = Deck::from_cards(ordered_cards()[..2].to_vec()).unwrap();
    assert!(GameState::new_game_from_deck(2, deck).is_ok());
}

#[test]
fn call_on_a_known_deck() {
    let deck = Deck::from_cards(ordered_cards()).unwrap();
    let mut state = GameState::new_game_from_deck(3, deck).unwrap();
    state
        .process_move(GameMove::Bet(HandValue::HighCard(Rank::King)))
        .unwrap();
    state.process_move(GameMove::Call()).unwrap();
    assert_eq!(1, state.current_turn);
    assert_eq!(1, state.players[1].penalties);
    assert_eq!(0, state.players[0].penalties);
    let diamond = |rank| Card {
        suit: Suit::Diamonds,
        rank,
    };
    assert_eq!(vec![diamond(Rank::Jack)], state.players[0].hand.cards);
    assert_eq!(
        vec![diamond(Rank::Nine), diamond(Rank::Ten)],
        state.players[1].hand.cards
    );
    assert_eq!(vec![diamond(Rank::Eight)], state.players[2].hand.cards);
    state
        .process_move(GameMove::Bet(HandValue::OnePair(Rank::Two)))
        .unwrap();
    state.process_move(GameMove::Call()).unwrap();
    assert_eq!(1, state.current_turn);
    assert_eq!(2, state.players[1].penalties);
    state
        .process_move(GameMove::Bet(HandValue::OnePair(Rank::Two)))
        .unwrap();
    state.process_move(GameMove::Call()).unwrap();
    assert_eq!(2, state.players.len());
    assert_eq!(vec![0, 2], state.players.iter().map(|p| p.name).collect::<Vec<u8>>());
    assert_eq!(1, state.current_turn);
}

#[test]
fn moves_that_can_be_made() {
    let mut state = default_gamestate();
    state.create_new_game(3).unwrap();
    let bet = GameMove::Bet(HandValue::HighCard(Rank::Two));
    assert!(state.can_process(&bet));
    assert!(state.can_process(&GameMove::Call()));
    state.current_turn = usize::MAX;
    assert!(!state.can_process(&bet));
    assert!(state.can_process(&GameMove::Call()));
    state.current_bet = Some(HandValue::FourOfAKind(Rank::Ace));
    assert!(!state.can_process(&GameMove::Call()));
    state.current_turn = 3;
    assert!(state.can_process(&GameMove::Call()));
    state.current_turn = 4;
    assert!(!state.can_process(&GameMove::Call()));
    state.current_turn = 0;
    assert!(state.can_process(&GameMove::Call()));
    state.players[1].penalties = 255;
    assert!(!state.can_process(&GameMove::Call()));
    state.players[1].penalties = 254;
    assert!(state.can_process(&GameMove::Call()));
    let mut empty = default_gamestate();
    assert!(empty.can_process(&GameMove::Call()));
    empty.current_bet = Some(HandValue::HighCard(Rank::Two));
    assert!(!empty.can_process(&GameMove::Call()));
}
