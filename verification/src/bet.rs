//! Reading what a player types: a command, a number of players, a bet.

use crate::adapters::trim;
use crate::adapters::trimmed;
use crate::card::same_text;
use crate::card::Rank;
use crate::game::GameError;
use crate::poker::FullHouse;
use crate::poker::HandValue;
use crate::poker::PokerError;
use crate::poker::TwoPair;
use vstd::prelude::*;
use vstd::string::StrSliceExecFns;

verus! {

/// The characters of each text of a sequence of texts.
pub open spec fn texts_of(items: Seq<String>) -> Seq<Seq<char>> {
    items.map_values(|item: String| item@)
}

/// The pieces into which its blanks cut a text: read from the left, a
/// blank ends the piece at hand and begins a new one, and any other
/// character goes to the end of the piece at hand. A text without a blank,
/// the empty one too, is one piece, and no piece holds a blank.
pub open spec fn pieces_of(text: Seq<char>) -> Seq<Seq<char>>
    decreases text.len(),
{
    if text.len() == 0 {
        seq![Seq::<char>::empty()]
    } else {
        let before = pieces_of(text.drop_last());
        if text.last() == ' ' {
            before.push(Seq::<char>::empty())
        } else {
            before.drop_last().push(before.last().push(text.last()))
        }
    }
}

/// The pieces into which its blanks cut a text.
pub fn split_at_blanks(text: &str) -> (pieces: Vec<String>)
    ensures
        texts_of(pieces@) == pieces_of(text@),
{
    let len = text.unicode_len();
    let mut pieces: Vec<String> = Vec::new();
    let mut start: usize = 0;
    let mut i: usize = 0;
    proof {
        assert(text@.take(0) =~= Seq::<char>::empty());
        assert(text@.subrange(0, 0) =~= Seq::<char>::empty());
        assert(texts_of(pieces@).push(text@.subrange(0, 0)) =~= pieces_of(text@.take(0)));
    }
    while i < len
        invariant
            len == text@.len(),
            start <= i <= len,
            texts_of(pieces@).push(text@.subrange(start as int, i as int)) == pieces_of(
                text@.take(i as int),
            ),
        decreases len - i,
    {
        let ghost cut = texts_of(pieces@);
        let ghost current = text@.subrange(start as int, i as int);
        proof {
            assert(text@.take(i + 1).drop_last() =~= text@.take(i as int));
            assert(text@.take(i + 1).last() == text@[i as int]);
            assert(cut.push(current).drop_last() =~= cut);
        }
        if text.get_char(i) == ' ' {
            let piece = text.substring_char(start, i).to_owned();
            proof {
                assert(texts_of(pieces@.push(piece)) =~= cut.push(current));
                assert(text@.subrange(i + 1, i + 1) =~= Seq::<char>::empty());
            }
            pieces.push(piece);
            start = i + 1;
        } else {
            proof {
                assert(text@.subrange(start as int, i + 1) =~= current.push(text@[i as int]));
            }
        }
        i += 1;
    }
    let piece = text.substring_char(start, len).to_owned();
    proof {
        assert(text@.take(len as int) =~= text@);
        assert(texts_of(pieces@.push(piece)) =~= texts_of(pieces@).push(piece@));
    }
    pieces.push(piece);
    pieces
}

/// The rank that `token` is the token of, if it is the token of any.
pub open spec fn rank_of_token(token: Seq<char>) -> Option<Rank> {
    if exists|rank: Rank| rank.token() == token {
        Some(choose|rank: Rank| rank.token() == token)
    } else {
        None
    }
}

/// Whether `word` names a category of two ranks.
pub open spec fn names_two_ranks(word: Seq<char>) -> bool {
    word == "twopair"@ || word == "fullhouse"@
}

/// The second rank that the words name: the third word must be the last
/// one and a rank.
pub open spec fn second_rank(words: Seq<Seq<char>>) -> Option<Rank> {
    if words.len() == 3 {
        rank_of_token(words[2])
    } else {
        None
    }
}

/// Whether the words name a category of two ranks and the same rank twice.
pub open spec fn names_a_rank_twice(words: Seq<Seq<char>>) -> bool {
    words.len() == 3 && names_two_ranks(words[0]) && rank_of_token(words[1]).is_some()
        && rank_of_token(words[1]) == rank_of_token(words[2])
}

/// The bet that the words make. The first word names the category and the
/// second its rank; for two pairs and for a full house the third word
/// names the other rank and has to be the last. Further words after a
/// category of one rank are passed over.
pub open spec fn bet_of(words: Seq<Seq<char>>) -> Option<HandValue> {
    if words.len() < 2 {
        None
    } else {
        match rank_of_token(words[1]) {
            None => None,
            Some(rank) => {
                let word = words[0];
                if word == "high"@ {
                    Some(HandValue::HighCard(rank))
                } else if word == "pair"@ {
                    Some(HandValue::OnePair(rank))
                } else if word == "twopair"@ {
                    match second_rank(words) {
                        None => None,
                        Some(other) => if other == rank {
                            None
                        } else {
                            Some(HandValue::TwoPair(TwoPair::canonical(rank, other)))
                        },
                    }
                } else if word == "triple"@ {
                    Some(HandValue::ThreeOfAKind(rank))
                } else if word == "straight"@ {
                    Some(HandValue::Straight(rank))
                } else if word == "fullhouse"@ {
                    match second_rank(words) {
                        None => None,
                        Some(other) => if other == rank {
                            None
                        } else {
                            Some(HandValue::FullHouse(FullHouse::of(rank, other)))
                        },
                    }
                } else if word == "quad"@ {
                    Some(HandValue::FourOfAKind(rank))
                } else {
                    None
                }
            },
        }
    }
}

/// The rank that a word names, if it names one.
fn rank_named(word: &str) -> (rank: Option<Rank>)
    ensures
        rank == rank_of_token(word@),
{
    let rank = Rank::from_str(word);
    proof {
        match rank {
            Some(found) => {
                let chosen = choose|other: Rank| other.token() == word@;
                crate::card::lemma_rank_tokens(found, chosen);
            },
            None => {},
        }
    }
    rank
}

/// The bet that the given words make. A bet that cannot be read is refused
/// as `GameError::IO`, and one that names the same rank twice for two pairs
/// or a full house as the category itself refuses it.
pub fn handvalue_from_words(words: &Vec<String>) -> (bet: Result<HandValue, GameError>)
    ensures
        match bet {
            Ok(value) => bet_of(texts_of(words@)) == Some(value),
            Err(GameError::Poker(PokerError::InvalidArguments(_))) => names_a_rank_twice(
                texts_of(words@),
            ),
            Err(GameError::IO) => bet_of(texts_of(words@)).is_none() && !names_a_rank_twice(
                texts_of(words@),
            ),
            Err(_) => false,
        },
{
    let ghost texts = texts_of(words@);
    if words.len() < 2 {
        return Err(GameError::IO);
    }
    proof {
        assert(texts[0] == words@[0]@);
        assert(texts[1] == words@[1]@);
        if words@.len() == 3 {
            assert(texts[2] == words@[2]@);
        }
        reveal_strlit("high");
        reveal_strlit("pair");
        reveal_strlit("twopair");
        reveal_strlit("triple");
        reveal_strlit("straight");
        reveal_strlit("fullhouse");
        reveal_strlit("quad");
    }
    let hand = words[0].as_str();
    let rank_one = rank_named(words[1].as_str());
    let rank_two = if words.len() == 3 {
        rank_named(words[2].as_str())
    } else {
        None
    };
    match rank_one {
        None => Err(GameError::IO),
        Some(rank) => {
            if same_text(hand, "high") {
                Ok(HandValue::HighCard(rank))
            } else if same_text(hand, "pair") {
                Ok(HandValue::OnePair(rank))
            } else if same_text(hand, "twopair") {
                match rank_two {
                    None => Err(GameError::IO),
                    Some(rank2) => match TwoPair::new(rank, rank2) {
                        Ok(two_pair) => Ok(HandValue::TwoPair(two_pair)),
                        Err(error) => Err(GameError::from(error)),
                    },
                }
            } else if same_text(hand, "triple") {
                Ok(HandValue::ThreeOfAKind(rank))
            } else if same_text(hand, "straight") {
                Ok(HandValue::Straight(rank))
            } else if same_text(hand, "fullhouse") {
                match rank_two {
                    None => Err(GameError::IO),
                    Some(rank2) => match FullHouse::new(rank, rank2) {
                        Ok(full_house) => Ok(HandValue::FullHouse(full_house)),
                        Err(error) => Err(GameError::from(error)),
                    },
                }
            } else if same_text(hand, "quad") {
                Ok(HandValue::FourOfAKind(rank))
            } else {
                Err(GameError::IO)
            }
        },
    }
}

/// The words of a line: the pieces into which its blanks cut it, each
/// without the white space at its ends.
pub open spec fn words_of(line: Seq<char>) -> Seq<Seq<char>> {
    pieces_of(line).map_values(|piece: Seq<char>| trimmed(piece))
}

/// The bet that a typed line makes: the words of the line read as
/// `handvalue_from_words` reads them.
pub fn parse_handvalue(input: &str) -> (bet: Result<HandValue, GameError>)
    ensures
        match bet {
            Ok(value) => bet_of(words_of(input@)) == Some(value),
            Err(GameError::Poker(PokerError::InvalidArguments(_))) => names_a_rank_twice(
                words_of(input@),
            ),
            Err(GameError::IO) => bet_of(words_of(input@)).is_none() && !names_a_rank_twice(
                words_of(input@),
            ),
            Err(_) => false,
        },
{
    let pieces = split_at_blanks(input);
    let mut words: Vec<String> = Vec::new();
    let mut i: usize = 0;
    while i < pieces.len()
        invariant
            i <= pieces@.len(),
            texts_of(pieces@) == pieces_of(input@),
            texts_of(words@) == words_of(input@).take(i as int),
        decreases pieces.len() - i,
    {
        let word = trim(pieces[i].as_str());
        proof {
            assert(texts_of(pieces@)[i as int] == pieces@[i as int]@);
            assert(texts_of(words@.push(word)) =~= texts_of(words@).push(word@));
            assert(words_of(input@).take(i + 1) =~= words_of(input@).take(i as int).push(word@));
        }
        words.push(word);
        i += 1;
    }
    proof {
        assert(texts_of(pieces@).len() == pieces@.len());
        assert(words_of(input@).take(pieces@.len() as int) =~= words_of(input@));
    }
    handvalue_from_words(&words)
}

/// What a player asks for at the start of a turn.
#[derive(Clone, Copy, Debug, PartialEq, Eq, Structural)]
pub enum Command {
    /// Start a new game.
    New,
    /// Make a bet.
    Bet,
    /// Call the bet that stands.
    Call,
    /// Anything else.
    Unknown,
}

/// The command that a word stands for.
pub open spec fn command_of(word: Seq<char>) -> Command {
    if word == "new"@ {
        Command::New
    } else if word == "bet"@ {
        Command::Bet
    } else if word == "call"@ {
        Command::Call
    } else {
        Command::Unknown
    }
}

/// The command that a word stands for.
pub fn command_from_word(word: &str) -> (command: Command)
    ensures
        command == command_of(word@),
{
    if same_text(word, "new") {
        Command::New
    } else if same_text(word, "bet") {
        Command::Bet
    } else if same_text(word, "call") {
        Command::Call
    } else {
        Command::Unknown
    }
}

/// The command that a typed line stands for, the white space at its ends
/// left aside.
pub fn parse_command(input: &str) -> (command: Command)
    ensures
        command == command_of(trimmed(input@)),
{
    let word = trim(input);
    command_from_word(word.as_str())
}

/// The digit that a character shows, if it is one of `0` to `9`.
pub open spec fn digit_of(c: char) -> Option<nat> {
    if '0' <= c <= '9' {
        Some((c as u32 - '0' as u32) as nat)
    } else {
        None
    }
}

/// The number that a row of digits shows in base ten. There is none for
/// an empty row, nor where a character is not a digit.
pub open spec fn digits_value(digits: Seq<char>) -> Option<nat>
    decreases digits.len(),
{
    if digits.len() == 0 {
        None
    } else {
        match digit_of(digits.last()) {
            None => None,
            Some(unit) => if digits.len() == 1 {
                Some(unit)
            } else {
                match digits_value(digits.drop_last()) {
                    None => None,
                    Some(tens) => Some(tens * 10 + unit),
                }
            },
        }
    }
}

/// The number below 256 that a word shows: digits only, with or without a
/// plus sign before them.
pub open spec fn number_of(word: Seq<char>) -> Option<u8> {
    let digits = if word.len() > 0 && word[0] == '+' {
        word.skip(1)
    } else {
        word
    };
    match digits_value(digits) {
        Some(value) => if value <= 255 {
            Some(value as u8)
        } else {
            None
        },
        None => None,
    }
}

/// A row of digits shows no smaller number when digits follow it.
pub proof fn lemma_digits_grow(digits: Seq<char>, n: int)
    requires
        1 <= n <= digits.len(),
        digits_value(digits).is_some(),
    ensures
        digits_value(digits.take(n)) matches Some(part) && part <= digits_value(digits).unwrap(),
    decreases digits.len(),
{
    if n < digits.len() {
        assert(digits.drop_last().take(n) =~= digits.take(n));
        lemma_digits_grow(digits.drop_last(), n);
    } else {
        assert(digits.take(n) =~= digits);
    }
}

/// The number below 256 that a word shows, if it shows one.
pub fn number_from_word(word: &str) -> (number: Option<u8>)
    ensures
        number == number_of(word@),
{
    let len = word.unicode_len();
    let start: usize = if len > 0 && word.get_char(0) == '+' {
        1
    } else {
        0
    };
    let ghost digits = word@.skip(start as int);
    proof {
        assert(word@.skip(0) =~= word@);
    }
    if start == len {
        return None;
    }
    let mut value: u8 = 0;
    let mut i: usize = start;
    while i < len
        invariant
            start <= i <= len,
            start < len,
            len == word@.len(),
            digits == word@.skip(start as int),
            digits == if word@.len() > 0 && word@[0] == '+' {
                word@.skip(1)
            } else {
                word@
            },
            i > start ==> digits_value(digits.take(i - start)) == Some(value as nat),
            i == start ==> value == 0,
        decreases len - i,
    {
        let c = word.get_char(i);
        let ghost upto = digits.take(i + 1 - start);
        proof {
            assert(upto.last() == c);
            assert(upto.drop_last() =~= digits.take(i - start));
            assert(digits.take(digits.len() as int) =~= digits);
            if digits_value(digits).is_some() {
                lemma_digits_grow(digits, i + 1 - start);
            }
        }
        if c < '0' || c > '9' {
            proof {
                assert(digit_of(c).is_none());
                assert(digits_value(upto).is_none());
            }
            return None;
        }
        let unit: u8 = (c as u32 - '0' as u32) as u8;
        proof {
            assert(digit_of(c) == Some(unit as nat));
            assert(digits_value(upto) == Some((value * 10 + unit) as nat));
        }
        if value > 25 || (value == 25 && unit > 5) {
            return None;
        }
        value = value * 10 + unit;
        i += 1;
    }
    proof {
        assert(digits.take(len - start) =~= digits);
    }
    Some(value)
}

/// The number of players that a typed line asks for, the white space at
/// its ends left aside. A line that shows no number below 256 is refused.
pub fn parse_players(input: &str) -> (players: Result<u8, GameError>)
    ensures
        match players {
            Ok(number) => number_of(trimmed(input@)) == Some(number),
            Err(error) => number_of(trimmed(input@)).is_none() && error is IO,
        },
{
    let word = trim(input);
    match number_from_word(word.as_str()) {
        Some(number) => Ok(number),
        None => Err(GameError::IO),
    }
}

} // verus!
