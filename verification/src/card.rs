//! Suits, ranks and cards of the standard 52-card deck.

use std::cmp::Ordering;
use vstd::prelude::*;
use vstd::std_specs::cmp::PartialOrdSpecImpl;
use vstd::string::StringExecFns;

verus! {

/// One of the four suits. Suits carry no order.
#[derive(Clone, Copy, Debug, PartialEq, Eq, Hash, Structural)]
pub enum Suit {
    Clubs,
    Spades,
    Hearts,
    Diamonds,
}

/// One of the thirteen ranks, from `Two` (lowest) to `Ace` (highest).
#[derive(Clone, Copy, Debug, PartialEq, Eq, Ord, Hash, Structural)]
pub enum Rank {
    Two,
    Three,
    Four,
    Five,
    Six,
    Seven,
    Eight,
    Nine,
    Ten,
    Jack,
    Queen,
    King,
    Ace,
}

impl Suit {
    /// The four suits, in the order in which they are enumerated.
    pub open spec fn universe() -> Seq<Suit> {
        seq![Suit::Clubs, Suit::Spades, Suit::Hearts, Suit::Diamonds]
    }

    /// The one-character symbol of a suit.
    pub open spec fn symbol(self) -> Seq<char> {
        match self {
            Suit::Clubs => "♣"@,
            Suit::Diamonds => "♦"@,
            Suit::Hearts => "♥"@,
            Suit::Spades => "♠"@,
        }
    }

    /// All four suits.
    pub fn all() -> (suits: Vec<Suit>)
        ensures
            suits@ == Suit::universe(),
    {
        vec![Suit::Clubs, Suit::Spades, Suit::Hearts, Suit::Diamonds]
    }

    /// The symbol of the suit as text.
    pub fn to_string(&self) -> (text: String)
        ensures
            text@ == self.symbol(),
    {
        match self {
            Suit::Clubs => "♣".to_owned(),
            Suit::Diamonds => "♦".to_owned(),
            Suit::Hearts => "♥".to_owned(),
            Suit::Spades => "♠".to_owned(),
        }
    }
}

impl Rank {
    /// The number a rank stands for: 2 for `Two` up to 14 for `Ace`.
    pub open spec fn value(self) -> u8 {
        match self {
            Rank::Two => 2,
            Rank::Three => 3,
            Rank::Four => 4,
            Rank::Five => 5,
            Rank::Six => 6,
            Rank::Seven => 7,
            Rank::Eight => 8,
            Rank::Nine => 9,
            Rank::Ten => 10,
            Rank::Jack => 11,
            Rank::Queen => 12,
            Rank::King => 13,
            Rank::Ace => 14,
        }
    }

    /// The thirteen ranks, lowest first.
    pub open spec fn universe() -> Seq<Rank> {
        seq![
            Rank::Two,
            Rank::Three,
            Rank::Four,
            Rank::Five,
            Rank::Six,
            Rank::Seven,
            Rank::Eight,
            Rank::Nine,
            Rank::Ten,
            Rank::Jack,
            Rank::Queen,
            Rank::King,
            Rank::Ace,
        ]
    }

    /// The rank with the number `value`, for a number from 2 to 14.
    pub open spec fn with_value(value: int) -> Rank {
        Rank::universe()[value - 2]
    }

    /// The short text by which a rank is written and read.
    pub open spec fn token(self) -> Seq<char> {
        match self {
            Rank::Two => "2"@,
            Rank::Three => "3"@,
            Rank::Four => "4"@,
            Rank::Five => "5"@,
            Rank::Six => "6"@,
            Rank::Seven => "7"@,
            Rank::Eight => "8"@,
            Rank::Nine => "9"@,
            Rank::Ten => "10"@,
            Rank::Jack => "J"@,
            Rank::Queen => "Q"@,
            Rank::King => "K"@,
            Rank::Ace => "A"@,
        }
    }

    /// All thirteen ranks, lowest first.
    pub fn all() -> (ranks: Vec<Rank>)
        ensures
            ranks@ == Rank::universe(),
    {
        vec![
            Rank::Two,
            Rank::Three,
            Rank::Four,
            Rank::Five,
            Rank::Six,
            Rank::Seven,
            Rank::Eight,
            Rank::Nine,
            Rank::Ten,
            Rank::Jack,
            Rank::Queen,
            Rank::King,
            Rank::Ace,
        ]
    }

    /// The number of the rank, between 2 and 14.
    pub fn to_u8(&self) -> (num: u8)
        ensures
            num == self.value(),
    {
        match self {
            Rank::Two => 2,
            Rank::Three => 3,
            Rank::Four => 4,
            Rank::Five => 5,
            Rank::Six => 6,
            Rank::Seven => 7,
            Rank::Eight => 8,
            Rank::Nine => 9,
            Rank::Ten => 10,
            Rank::Jack => 11,
            Rank::Queen => 12,
            Rank::King => 13,
            Rank::Ace => 14,
        }
    }

    /// The rank that stands for `num`, if `num` lies between 2 and 14.
    pub fn from_u8(num: u8) -> (rank: Option<Rank>)
        ensures
            match rank {
                Some(r) => r.value() == num,
                None => num < 2 || num > 14,
            },
    {
        match num {
            2 => Some(Rank::Two),
            3 => Some(Rank::Three),
            4 => Some(Rank::Four),
            5 => Some(Rank::Five),
            6 => Some(Rank::Six),
            7 => Some(Rank::Seven),
            8 => Some(Rank::Eight),
            9 => Some(Rank::Nine),
            10 => Some(Rank::Ten),
            11 => Some(Rank::Jack),
            12 => Some(Rank::Queen),
            13 => Some(Rank::King),
            14 => Some(Rank::Ace),
            _ => None,
        }
    }

    /// The rank that `s` is the token of, if it is the token of any.
    pub fn from_str(s: &str) -> (rank: Option<Rank>)
        ensures
            match rank {
                Some(r) => r.token() == s@,
                None => forall|r: Rank| r.token() != s@,
            },
    {
        if same_text(s, "2") {
            Some(Rank::Two)
        } else if same_text(s, "3") {
            Some(Rank::Three)
        } else if same_text(s, "4") {
            Some(Rank::Four)
        } else if same_text(s, "5") {
            Some(Rank::Five)
        } else if same_text(s, "6") {
            Some(Rank::Six)
        } else if same_text(s, "7") {
            Some(Rank::Seven)
        } else if same_text(s, "8") {
            Some(Rank::Eight)
        } else if same_text(s, "9") {
            Some(Rank::Nine)
        } else if same_text(s, "10") {
            Some(Rank::Ten)
        } else if same_text(s, "J") {
            Some(Rank::Jack)
        } else if same_text(s, "Q") {
            Some(Rank::Queen)
        } else if same_text(s, "K") {
            Some(Rank::King)
        } else if same_text(s, "A") {
            Some(Rank::Ace)
        } else {
            None
        }
    }

    /// The token of the rank as text.
    pub fn to_string(&self) -> (text: String)
        ensures
            text@ == self.token(),
    {
        match self {
            Rank::Two => "2".to_owned(),
            Rank::Three => "3".to_owned(),
            Rank::Four => "4".to_owned(),
            Rank::Five => "5".to_owned(),
            Rank::Six => "6".to_owned(),
            Rank::Seven => "7".to_owned(),
            Rank::Eight => "8".to_owned(),
            Rank::Nine => "9".to_owned(),
            Rank::Ten => "10".to_owned(),
            Rank::Jack => "J".to_owned(),
            Rank::Queen => "Q".to_owned(),
            Rank::King => "K".to_owned(),
            Rank::Ace => "A".to_owned(),
        }
    }
}

/// The numbers of the ranks run from 2 to 14 along `Rank::universe`, and no
/// two ranks share a number.
pub proof fn lemma_rank_values(a: Rank, b: Rank)
    ensures
        2 <= a.value() <= 14,
        a.value() == b.value() ==> a == b,
        Rank::universe().len() == 13,
        Rank::with_value(a.value() as int) == a,
        forall|i: int| 0 <= i < 13 ==> (#[trigger] Rank::universe()[i]).value() == i + 2,
{
}

/// No two ranks share a token.
pub proof fn lemma_rank_tokens(a: Rank, b: Rank)
    ensures
        a.token() == b.token() ==> a == b,
{
    reveal_strlit("2");
    reveal_strlit("3");
    reveal_strlit("4");
    reveal_strlit("5");
    reveal_strlit("6");
    reveal_strlit("7");
    reveal_strlit("8");
    reveal_strlit("9");
    reveal_strlit("10");
    reveal_strlit("J");
    reveal_strlit("Q");
    reveal_strlit("K");
    reveal_strlit("A");
    if a != b {
        assert(a.token().len() != b.token().len() || a.token()[0] != b.token()[0]);
    }
}

/// Whether two pieces of text hold the same characters.
pub fn same_text(a: &str, b: &str) -> (same: bool)
    ensures
        same == (a@ == b@),
{
    let left = a.to_owned();
    let right = b.to_owned();
    left == right
}

/// How two rank numbers compare.
pub open spec fn order_of_values(a: u8, b: u8) -> Ordering {
    if a < b {
        Ordering::Less
    } else if a == b {
        Ordering::Equal
    } else {
        Ordering::Greater
    }
}

impl PartialOrd for Rank {
    fn partial_cmp(&self, other: &Rank) -> (order: Option<Ordering>) {
        let a = self.to_u8();
        let b = other.to_u8();
        if a < b {
            Some(Ordering::Less)
        } else if a == b {
            Some(Ordering::Equal)
        } else {
            Some(Ordering::Greater)
        }
    }
}

impl PartialOrdSpecImpl for Rank {
    open spec fn obeys_partial_cmp_spec() -> bool {
        true
    }

    open spec fn partial_cmp_spec(&self, other: &Rank) -> Option<Ordering> {
        Some(order_of_values(self.value(), other.value()))
    }
}

/// A card: a suit and a rank. Cards are ordered by rank alone: two cards of
/// one rank compare equal, though as values they differ.
#[derive(Clone, Copy, Debug, PartialEq, Eq, Hash, Structural)]
pub struct Card {
    pub suit: Suit,
    pub rank: Rank,
}

impl PartialOrd for Card {
    fn partial_cmp(&self, other: &Card) -> (order: Option<Ordering>) {
        self.rank.partial_cmp(&other.rank)
    }
}

impl PartialOrdSpecImpl for Card {
    open spec fn obeys_partial_cmp_spec() -> bool {
        true
    }

    open spec fn partial_cmp_spec(&self, other: &Card) -> Option<Ordering> {
        Some(order_of_values(self.rank.value(), other.rank.value()))
    }
}

/// One of the five text lines on which a card is drawn.
#[derive(Clone, Copy, Debug, PartialEq, Eq, Structural)]
pub enum LineNumber {
    Zero,
    One,
    Two,
    Three,
    Four,
}

impl LineNumber {
    /// The five lines, top to bottom.
    pub fn lines() -> (lines: [LineNumber; 5])
        ensures
            lines@ == seq![
                LineNumber::Zero,
                LineNumber::One,
                LineNumber::Two,
                LineNumber::Three,
                LineNumber::Four,
            ],
    {
        [LineNumber::Zero, LineNumber::One, LineNumber::Two, LineNumber::Three, LineNumber::Four]
    }
}

impl Card {
    /// The four cards of `rank`, one for each suit in the order of `Suit::universe`.
    pub open spec fn all_with_rank(rank: Rank) -> Seq<Card> {
        Seq::new(4, |i: int| Card { suit: Suit::universe()[i], rank })
    }

    /// The thirteen cards of `suit`, one for each rank, lowest first.
    pub open spec fn all_with_suit(suit: Suit) -> Seq<Card> {
        Seq::new(13, |i: int| Card { suit, rank: Rank::universe()[i] })
    }

    /// One line of the drawing of the card: a frame of seven characters that
    /// shows the rank in two corners and the suit in the middle.
    pub open spec fn line_text(self, line: LineNumber) -> Seq<char> {
        match line {
            LineNumber::Zero | LineNumber::Four => "+-----+"@,
            LineNumber::One => if self.rank != Rank::Ten {
                "|"@ + self.rank.token() + " "@ + self.suit.symbol() + "  |"@
            } else {
                "|"@ + self.rank.token() + self.suit.symbol() + "  |"@
            },
            LineNumber::Two => "|  "@ + self.suit.symbol() + "  |"@,
            LineNumber::Three => if self.rank != Rank::Ten {
                "|  "@ + self.suit.symbol() + " "@ + self.rank.token() + "|"@
            } else {
                "|  "@ + self.suit.symbol() + self.rank.token() + "|"@
            },
        }
    }

    /// The whole drawing of the card: its five lines, with a line break
    /// between one line and the next.
    pub open spec fn text(self) -> Seq<char> {
        self.line_text(LineNumber::Zero) + "\n"@ + self.line_text(LineNumber::One) + "\n"@
            + self.line_text(LineNumber::Two) + "\n"@ + self.line_text(LineNumber::Three) + "\n"@
            + self.line_text(LineNumber::Four)
    }

    /// The given line of the drawing of the card.
    pub fn to_single_string(&self, line: LineNumber) -> (text: String)
        ensures
            text@ == self.line_text(line),
    {
        let rank = self.rank.to_string();
        let suit = self.suit.to_string();
        match line {
            LineNumber::Zero | LineNumber::Four => "+-----+".to_owned(),
            LineNumber::One => {
                let mut out = "|".to_owned();
                out.append(rank.as_str());
                if self.rank != Rank::Ten {
                    out.append(" ");
                }
                out.append(suit.as_str());
                out.append("  |");
                out
            },
            LineNumber::Two => {
                let mut out = "|  ".to_owned();
                out.append(suit.as_str());
                out.append("  |");
                out
            },
            LineNumber::Three => {
                let mut out = "|  ".to_owned();
                out.append(suit.as_str());
                if self.rank != Rank::Ten {
                    out.append(" ");
                }
                out.append(rank.as_str());
                out.append("|");
                out
            },
        }
    }

    /// The whole drawing of the card.
    pub fn to_string(&self) -> (text: String)
        ensures
            text@ == self.text(),
    {
        let mut out = self.to_single_string(LineNumber::Zero);
        out.append("\n");
        out.append(self.to_single_string(LineNumber::One).as_str());
        out.append("\n");
        out.append(self.to_single_string(LineNumber::Two).as_str());
        out.append("\n");
        out.append(self.to_single_string(LineNumber::Three).as_str());
        out.append("\n");
        out.append(self.to_single_string(LineNumber::Four).as_str());
        out
    }

    /// The four cards of `rank`, one for each suit.
    pub fn get_all_with_rank(rank: Rank) -> (cards: Vec<Card>)
        ensures
            cards@ == Card::all_with_rank(rank),
    {
        let suits = Suit::all();
        let mut cards: Vec<Card> = Vec::new();
        let mut i: usize = 0;
        while i < suits.len()
            invariant
                suits@ == Suit::universe(),
                i <= 4,
                cards@.len() == i,
                forall|k: int| 0 <= k < i ==> cards@[k] == Card::all_with_rank(rank)[k],
            decreases suits.len() - i,
        {
            cards.push(Card { suit: suits[i], rank });
            i += 1;
        }
        cards
    }

    /// The thirteen cards of `suit`, one for each rank.
    pub fn get_all_with_suit(suit: Suit) -> (cards: Vec<Card>)
        ensures
            cards@ == Card::all_with_suit(suit),
    {
        let ranks = Rank::all();
        let mut cards: Vec<Card> = Vec::new();
        let mut i: usize = 0;
        while i < ranks.len()
            invariant
                ranks@ == Rank::universe(),
                i <= 13,
                cards@.len() == i,
                forall|k: int| 0 <= k < i ==> cards@[k] == Card::all_with_suit(suit)[k],
            decreases ranks.len() - i,
        {
            cards.push(Card { suit, rank: ranks[i] });
            i += 1;
        }
        cards
    }
}

} // verus!
