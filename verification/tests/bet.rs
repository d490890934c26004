use commune::bet::{
    command_from_word, handvalue_from_words, number_from_word, parse_command, parse_handvalue,
    parse_players, split_at_blanks, Command,
};
use commune::card::Rank;
use commune::game::GameError;
use commune::poker::{FullHouse, HandValue, PokerError, TwoPair};

fn words(line: &[&str]) -> Vec<String> {
    line.iter().map(|word| word.to_string()).collect()
}

fn is_io(bet: Result<HandValue, GameError>) -> bool {
    matches!(bet, Err(GameError::IO))
}

#[test]
fn bets_of_one_rank() {
    assert_eq!(
        HandValue::HighCard(Rank::Ace),
        parse_handvalue("high A\n").unwrap()
    );
    assert_eq!(
        HandValue::OnePair(Rank::Ten),
        parse_handvalue("pair 10\n").unwrap()
    );
    assert_eq!(
        HandValue::ThreeOfAKind(Rank::Two),
        parse_handvalue("triple 2\n").unwrap()
    );
    assert_eq!(
        HandValue::Straight(Rank::Jack),
        parse_handvalue("straight J\n").unwrap()
    );
    assert_eq!(
        HandValue::FourOfAKind(Rank::Ace),
        parse_handvalue("quad A\n").unwrap()
    );
    assert_eq!(
        HandValue::FourOfAKind(Rank::King),
        parse_handvalue("quad K").unwrap()
    );
}

#[test]
fn bets_of_two_ranks() {
    assert_eq!(
        HandValue::TwoPair(TwoPair::new(Rank::King, Rank::Four).unwrap()),
        parse_handvalue("twopair 4 K\n").unwrap()
    );
    assert_eq!(
        HandValue::TwoPair(TwoPair::new(Rank::King, Rank::Four).unwrap()),
        parse_handvalue("twopair K 4\n").unwrap()
    );
    assert_eq!(
        HandValue::FullHouse(FullHouse::new(Rank::Queen, Rank::Nine).unwrap()),
        parse_handvalue("fullhouse Q 9\r\n").unwrap()
    );
    assert_eq!(
        HandValue::FullHouse(FullHouse::new(Rank::Nine, Rank::Queen).unwrap()),
        parse_handvalue("fullhouse 9 Q\n").unwrap()
    );
}

#[test]
fn bets_of_two_ranks_need_two_ranks() {
    assert!(is_io(parse_handvalue("twopair K\n")));
    assert!(is_io(parse_handvalue("fullhouse K\n")));
    assert!(is_io(parse_handvalue("twopair K Q J\n")));
    assert!(is_io(parse_handvalue("fullhouse K Q J\n")));
    assert!(is_io(parse_handvalue("twopair K X\n")));
    assert!(is_io(parse_handvalue("twopair K  Q\n")));
}

#[test]
fn bets_that_name_a_rank_twice() {
    match parse_handvalue("twopair 7 7\n") {
        Err(GameError::Poker(PokerError::InvalidArguments(text))) => {
            assert_eq!("Top rank and bottom rank cannot be equal.", text)
        }
        _ => panic!("two pairs of one rank were read"),
    }
    match parse_handvalue("fullhouse A A\n") {
        Err(GameError::Poker(PokerError::InvalidArguments(_))) => {}
        _ => panic!("a full house of one rank was read"),
    }
}

#[test]
fn bets_that_cannot_be_read() {
    assert!(is_io(parse_handvalue("\n")));
    assert!(is_io(parse_handvalue("")));
    assert!(is_io(parse_handvalue("quad\n")));
    assert!(is_io(parse_handvalue("quad X\n")));
    assert!(is_io(parse_handvalue("quad  A\n")));
    assert!(is_io(parse_handvalue("flush A\n")));
    assert!(is_io(parse_handvalue("Quad A\n")));
    assert!(is_io(parse_handvalue("A quad\n")));
    assert!(is_io(parse_handvalue("quad a\n")));
}

#[test]
fn bets_of_one_rank_pass_over_further_words() {
    assert_eq!(
        HandValue::HighCard(Rank::Ace),
        parse_handvalue("high A K\n").unwrap()
    );
    assert_eq!(
        HandValue::OnePair(Rank::Ace),
        parse_handvalue("pair A nonsense and more\n").unwrap()
    );
    assert_eq!(
        HandValue::HighCard(Rank::Five),
        parse_handvalue("\thigh \t5\n").unwrap()
    );
}

#[test]
fn bets_from_words() {
    assert_eq!(
        HandValue::Straight(Rank::Six),
        handvalue_from_words(&words(&["straight", "6"])).unwrap()
    );
    assert_eq!(
        HandValue::TwoPair(TwoPair::new(Rank::Three, Rank::Two).unwrap()),
        handvalue_from_words(&words(&["twopair", "2", "3"])).unwrap()
    );
    assert!(is_io(handvalue_from_words(&words(&[]))));
    assert!(is_io(handvalue_from_words(&words(&["quad"]))));
    assert!(is_io(handvalue_from_words(&words(&["quad", "A\n"]))));
    assert!(is_io(handvalue_from_words(&words(&["quad ", "A"]))));
    assert!(is_io(handvalue_from_words(&words(&["twopair", "2", "3", ""]))));
}

#[test]
fn commands() {
    assert_eq!(Command::New, parse_command("new\n"));
    assert_eq!(Command::Bet, parse_command("  bet \r\n"));
    assert_eq!(Command::Call, parse_command("call"));
    assert_eq!(Command::Unknown, parse_command("fold\n"));
    assert_eq!(Command::Unknown, parse_command("\n"));
    assert_eq!(Command::Unknown, parse_command("bet A\n"));
    assert_eq!(Command::Unknown, parse_command("New\n"));
    assert_eq!(Command::Unknown, command_from_word("new\n"));
    assert_eq!(Command::New, command_from_word("new"));
}

#[test]
fn numbers_of_players() {
    assert_eq!(3, parse_players("3\n").unwrap());
    assert_eq!(0, parse_players("0\n").unwrap());
    assert_eq!(255, parse_players(" 255 \n").unwrap());
    assert_eq!(7, parse_players("+7\n").unwrap());
    assert_eq!(12, parse_players("012\n").unwrap());
    assert!(matches!(parse_players("256\n"), Err(GameError::IO)));
    assert!(matches!(parse_players("\n"), Err(GameError::IO)));
    assert!(matches!(parse_players("+\n"), Err(GameError::IO)));
    assert!(matches!(parse_players("-1\n"), Err(GameError::IO)));
    assert!(matches!(parse_players("three\n"), Err(GameError::IO)));
    assert!(matches!(parse_players("3 4\n"), Err(GameError::IO)));
    assert!(matches!(parse_players("1e2\n"), Err(GameError::IO)));
}

#[test]
fn numbers_agree_with_the_standard_reader() {
    let mut samples: Vec<String> = (0..300u32).map(|n| n.to_string()).collect();
    for text in [
        "", "+", "-", "++1", "+-1", "-0", "+0", "00", "000255", "0000256", "25 5", "2_5", "٣",
        "１２", "12a", "a12", "9999999999999999999999", "+255", "+256", " 1", "1 ",
    ] {
        samples.push(text.to_string());
    }
    for text in samples {
        assert_eq!(text.parse::<u8>().ok(), number_from_word(&text), "{:?}", text);
    }
}

#[test]
fn pieces_between_blanks() {
    assert_eq!(vec!["quad", "A\n"], split_at_blanks("quad A\n"));
    assert_eq!(vec![""], split_at_blanks(""));
    assert_eq!(vec!["", ""], split_at_blanks(" "));
    assert_eq!(vec!["a", "", "b", ""], split_at_blanks("a  b "));
    assert_eq!(vec!["", "♥10", "\tx"], split_at_blanks(" ♥10 \tx"));
    for text in ["", " ", "  ", "a", " a", "a ", "a b", "twopair K Q\n", "é ü  ♣ ", "\u{a0} \t"] {
        let expected: Vec<String> = text.split(" ").map(|piece| piece.to_string()).collect();
        assert_eq!(expected, split_at_blanks(text));
    }
}
